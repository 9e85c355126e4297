use vstd::prelude::*;
use crate::array::{ArrayError, NdArray};
use crate::permute::{is_axis_permutation, permute_axes, permuted_shape, scatter};
use crate::shape::dims_fit;
use crate::strides::{in_bounds, ravel};

verus! {

/// An axis as `moveaxis` reads it: negative values count from the end.
pub open spec fn signed_axis(ax: isize, ndim: int) -> int {
    if ax < 0 { ax + ndim } else { ax as int }
}

/// No value occurs twice.
pub open spec fn all_distinct(s: Seq<usize>) -> bool {
    forall|i: int, j: int| 0 <= i < j < s.len() ==> s[i] != s[j]
}

/// Every value is below `n`.
pub open spec fn all_below(s: Seq<usize>, n: int) -> bool {
    forall|i: int| 0 <= i < s.len() ==> #[trigger] s[i] < n
}

/// The axis order after the last `k` source axes were taken out, the last listed first,
/// together with the removed axes in the order of `source`; `None` once a source axis does
/// not name one of the axes still in place.
pub open spec fn axes_after_removal(ndim: int, source: Seq<isize>, k: int) -> Option<(Seq<usize>, Seq<usize>)>
    decreases k,
{
    if k <= 0 {
        Some((Seq::new(ndim as nat, |i: int| i as usize), Seq::empty()))
    } else {
        match axes_after_removal(ndim, source, k - 1) {
            None => None,
            Some((ax, rem)) => {
                let s = signed_axis(source[source.len() - k], ndim);
                if 0 <= s < ax.len() {
                    Some((ax.remove(s), seq![ax[s]] + rem))
                } else {
                    None
                }
            },
        }
    }
}

/// The axis order after the first `k` removed axes were put back at their destinations, in
/// order; `None` once a destination lies beyond the axes in place.
pub open spec fn axes_after_insertion(ax: Seq<usize>, rem: Seq<usize>, dest: Seq<isize>, ndim: int, k: int) -> Option<Seq<usize>>
    decreases k,
{
    if k <= 0 {
        Some(ax)
    } else {
        match axes_after_insertion(ax, rem, dest, ndim, k - 1) {
            None => None,
            Some(a) => {
                let d = signed_axis(dest[k - 1], ndim);
                if 0 <= d <= a.len() {
                    Some(a.insert(d, rem[k - 1]))
                } else {
                    None
                }
            },
        }
    }
}

/// The axis order that moving `source` to `dest` gives an array of `ndim` axes, or `None`
/// when an axis is out of bounds.
pub open spec fn moved_axes(ndim: int, source: Seq<isize>, dest: Seq<isize>) -> Option<Seq<usize>> {
    match axes_after_removal(ndim, source, source.len() as int) {
        None => None,
        Some((ax, rem)) => axes_after_insertion(ax, rem, dest, ndim, dest.len() as int),
    }
}

proof fn lemma_distinct_reindex(u: Seq<usize>, t: Seq<usize>, g: spec_fn(int) -> int)
    requires
        t.len() == u.len(),
        all_distinct(u),
        forall|p: int| 0 <= p < t.len() ==> 0 <= #[trigger] g(p) < u.len() && t[p] == u[g(p)],
        forall|p: int, q: int| 0 <= p < q < t.len() ==> #[trigger] g(p) != #[trigger] g(q),
    ensures
        all_distinct(t),
{
    assert forall|i: int, j: int| 0 <= i < j < t.len() implies t[i] != t[j] by {
        let gi = g(i);
        let gj = g(j);
        if gi < gj {
            assert(u[gi] != u[gj]);
        } else {
            assert(u[gj] != u[gi]);
        }
    }
}

proof fn lemma_removal_wf(ndim: int, source: Seq<isize>, k: int)
    requires
        0 <= ndim <= usize::MAX,
        0 <= k <= source.len(),
    ensures
        axes_after_removal(ndim, source, k) matches Some((ax, rem)) ==> {
            &&& (ax + rem).len() == ndim
            &&& all_distinct(ax + rem)
            &&& all_below(ax + rem, ndim)
            &&& rem.len() == k
        },
    decreases k,
{
    if k > 0 {
        lemma_removal_wf(ndim, source, k - 1);
        if let Some((ax, rem)) = axes_after_removal(ndim, source, k - 1) {
            let s = signed_axis(source[source.len() - k], ndim);
            if 0 <= s < ax.len() {
                let u = ax + rem;
                let t = ax.remove(s) + (seq![ax[s]] + rem);
                let l = ax.len() as int;
                let g = |p: int| if p < s { p } else if p < l - 1 { p + 1 } else if p == l - 1 { s } else { p };
                assert forall|p: int| 0 <= p < t.len() implies 0 <= #[trigger] g(p) < u.len() && t[p] == u[g(p)] by {}
                assert forall|p: int, q: int| 0 <= p < q < t.len() implies #[trigger] g(p) != #[trigger] g(q) by {}
                lemma_distinct_reindex(u, t, g);
                assert(ax.remove(s) + (seq![ax[s]] + rem) =~= t);
                assert forall|p: int| 0 <= p < t.len() implies #[trigger] t[p] < ndim by {
                    assert(t[p] == u[g(p)]);
                }
                assert(axes_after_removal(ndim, source, k) == Some((ax.remove(s), seq![ax[s]] + rem)));
            }
        }
    } else {
        let ax = Seq::new(ndim as nat, |i: int| i as usize);
        assert(ax + Seq::<usize>::empty() =~= ax);
        assert(all_distinct(ax));
        assert(all_below(ax, ndim));
    }
}

proof fn lemma_insertion_wf(ax: Seq<usize>, rem: Seq<usize>, dest: Seq<isize>, ndim: int, k: int)
    requires
        0 <= k <= rem.len(),
        k <= dest.len(),
        (ax + rem).len() == ndim,
        all_distinct(ax + rem),
        all_below(ax + rem, ndim),
    ensures
        axes_after_insertion(ax, rem, dest, ndim, k) matches Some(a) ==> {
            let t = a + rem.subrange(k, rem.len() as int);
            &&& t.len() == ndim
            &&& all_distinct(t)
            &&& all_below(t, ndim)
        },
    decreases k,
{
    if k > 0 {
        lemma_insertion_wf(ax, rem, dest, ndim, k - 1);
        if let Some(a) = axes_after_insertion(ax, rem, dest, ndim, k - 1) {
            let d = signed_axis(dest[k - 1], ndim);
            if 0 <= d <= a.len() {
                let u = a + rem.subrange(k - 1, rem.len() as int);
                let t = a.insert(d, rem[k - 1]) + rem.subrange(k, rem.len() as int);
                let la = a.len() as int;
                let g = |p: int| if p < d { p } else if p == d { la } else if p <= la { p - 1 } else { p };
                assert forall|p: int| 0 <= p < t.len() implies 0 <= #[trigger] g(p) < u.len() && t[p] == u[g(p)] by {}
                assert forall|p: int, q: int| 0 <= p < q < t.len() implies #[trigger] g(p) != #[trigger] g(q) by {}
                lemma_distinct_reindex(u, t, g);
                assert forall|p: int| 0 <= p < t.len() implies #[trigger] t[p] < ndim by {
                    assert(t[p] == u[g(p)]);
                }
            }
        }
    } else {
        assert(rem.subrange(0, rem.len() as int) =~= rem);
    }
}

/// Moving axes only reorders them: whenever `moved_axes` gives an order, it lists each of the
/// `ndim` axes exactly once.
pub proof fn law_moved_axes_permutation(ndim: int, source: Seq<isize>, dest: Seq<isize>)
    requires
        0 <= ndim <= usize::MAX,
        source.len() == dest.len(),
    ensures
        moved_axes(ndim, source, dest) matches Some(p) ==> is_axis_permutation(p, ndim),
{
    lemma_removal_wf(ndim, source, source.len() as int);
    if let Some((ax, rem)) = axes_after_removal(ndim, source, source.len() as int) {
        lemma_insertion_wf(ax, rem, dest, ndim, dest.len() as int);
        if let Some(p) = axes_after_insertion(ax, rem, dest, ndim, dest.len() as int) {
            assert(p + rem.subrange(rem.len() as int, rem.len() as int) =~= p);
        }
    }
}

proof fn lemma_removal_stays_none(ndim: int, source: Seq<isize>, k: int, k2: int)
    requires
        0 <= k <= k2,
        axes_after_removal(ndim, source, k) is None,
    ensures
        axes_after_removal(ndim, source, k2) is None,
    decreases k2 - k,
{
    if k2 > k {
        lemma_removal_stays_none(ndim, source, k, k2 - 1);
    }
}

proof fn lemma_insertion_stays_none(ax: Seq<usize>, rem: Seq<usize>, dest: Seq<isize>, ndim: int, k: int, k2: int)
    requires
        0 <= k <= k2,
        axes_after_insertion(ax, rem, dest, ndim, k) is None,
    ensures
        axes_after_insertion(ax, rem, dest, ndim, k2) is None,
    decreases k2 - k,
{
    if k2 > k {
        lemma_insertion_stays_none(ax, rem, dest, ndim, k, k2 - 1);
    }
}

/// Resolves an axis that may count from the end; `None` when it lies before the first axis.
fn resolve_signed(ax: isize, ndim: usize) -> (r: Option<usize>)
    ensures
        r matches Some(v) ==> v == signed_axis(ax, ndim as int),
        r is None ==> signed_axis(ax, ndim as int) < 0,
{
    if ax < 0 {
        let m: usize = (0 - (ax + 1)) as usize + 1;
        if m > ndim {
            None
        } else {
            Some(ndim - m)
        }
    } else {
        Some(ax as usize)
    }
}

/// Moves the axes listed in `source` to the positions listed in `destination` (negative
/// values count from the end), keeping the other axes in order. The source axes are taken
/// out from the last to the first, then put back at their destinations from the first to the
/// last. Lists of different lengths are refused, and so is an axis that is out of bounds
/// at the moment it is used.
pub fn moveaxis<T: Copy>(a: &NdArray<T>, source: &Vec<isize>, destination: &Vec<isize>) -> (r: Result<NdArray<T>, ArrayError>)
    requires
        a.wf(),
        dims_fit(a.shape@),
    ensures
        source@.len() != destination@.len() ==> r == Err::<NdArray<T>, ArrayError>(ArrayError::InvalidArgument),
        source@.len() == destination@.len() ==> match moved_axes(a.shape@.len() as int, source@, destination@) {
            None => r == Err::<NdArray<T>, ArrayError>(ArrayError::AxisOutOfBounds),
            Some(p) => r matches Ok(t) && {
                &&& t.wf()
                &&& t.shape@ == permuted_shape(a.shape@, p)
                &&& forall|m: Seq<int>| in_bounds(m, t.shape@) ==>
                    t.data@[#[trigger] ravel(m, t.shape@)] == a.data@[ravel(scatter(m, p, a.shape@.len() as int, p.len() as int), a.shape@)]
            },
        },
{
    let ndim = a.shape.len();
    let n = source.len();
    if n != destination.len() {
        return Err(ArrayError::InvalidArgument);
    }
    let mut axes: Vec<usize> = Vec::new();
    let mut i: usize = 0;
    while i < ndim
        invariant
            0 <= i <= ndim,
            axes@ == Seq::new(i as nat, |q: int| q as usize),
        decreases ndim - i,
    {
        axes.push(i);
        i = i + 1;
        proof {
            assert(axes@ =~= Seq::new(i as nat, |q: int| q as usize));
        }
    }
    let mut removed: Vec<usize> = Vec::new();
    let mut k: usize = 0;
    while k < n
        invariant
            0 <= k <= n,
            n == source@.len(),
            n == destination@.len(),
            ndim == a.shape@.len(),
            removed@.len() == k,
            axes_after_removal(ndim as int, source@, k as int) == Some((axes@, removed@.reverse())),
        decreases n - k,
    {
        let j = n - 1 - k;
        let s = resolve_signed(source[j], ndim);
        let s = match s {
            Some(s) => s,
            None => {
                proof {
                    lemma_removal_stays_none(ndim as int, source@, k + 1, n as int);
                }
                return Err(ArrayError::AxisOutOfBounds);
            },
        };
        if s >= axes.len() {
            proof {
                lemma_removal_stays_none(ndim as int, source@, k + 1, n as int);
            }
            return Err(ArrayError::AxisOutOfBounds);
        }
        let ghost old_removed = removed@;
        let ghost old_axes = axes@;
        let x = axes.remove(s);
        removed.push(x);
        proof {
            assert(removed@.reverse() =~= seq![old_axes[s as int]] + old_removed.reverse());
            assert(source@.len() - (k + 1) == j);
        }
        k = k + 1;
    }
    let ghost rem = removed@.reverse();
    let ghost ax0 = axes@;
    let mut j: usize = 0;
    while j < n
        invariant
            0 <= j <= n,
            n == destination@.len(),
            n == source@.len(),
            n == removed@.len(),
            axes_after_removal(ndim as int, source@, n as int) == Some((ax0, rem)),
            ndim == a.shape@.len(),
            rem == removed@.reverse(),
            axes_after_insertion(ax0, rem, destination@, ndim as int, j as int) == Some(axes@),
        decreases n - j,
    {
        let d = resolve_signed(destination[j], ndim);
        let d = match d {
            Some(d) => d,
            None => {
                proof {
                    lemma_insertion_stays_none(ax0, rem, destination@, ndim as int, j + 1, n as int);
                }
                return Err(ArrayError::AxisOutOfBounds);
            },
        };
        if d > axes.len() {
            proof {
                lemma_insertion_stays_none(ax0, rem, destination@, ndim as int, j + 1, n as int);
            }
            return Err(ArrayError::AxisOutOfBounds);
        }
        let x = removed[n - 1 - j];
        proof {
            assert(x == rem[j as int]);
        }
        axes.insert(d, x);
        j = j + 1;
    }
    proof {
        law_moved_axes_permutation(ndim as int, source@, destination@);
    }
    Ok(permute_axes(a, &axes))
}

} // verus!

use vstd::prelude::*;
use vstd::relations::sorted_by;
use vstd::set_lib::{lemma_int_range, lemma_len_subset, lemma_subset_equality, set_int_range};
use crate::array::{axis_layout, axis_ok, gather_along, norm_axis, normalize_axis, ArrayError, NdArray};
use crate::layout::gathered;
use crate::random::is_permutation;
use crate::shape::{dims_fit, post_of, pre_of, prod};

verus! {

/// The run that position `pos` of a sorted order belongs to: runs are numbered from 0, and a
/// new run starts at every position (after the first) whose row differs from the one before.
pub open spec fn run_of(same_prev: Seq<bool>, pos: int) -> int
    decreases pos,
{
    if pos <= 0 { 0 } else { run_of(same_prev, pos - 1) + (if same_prev[pos] { 0int } else { 1int }) }
}

/// The number of runs among the first `n` positions.
pub open spec fn run_total(same_prev: Seq<bool>, n: int) -> int {
    if n <= 0 { 0 } else { run_of(same_prev, n - 1) + 1 }
}

/// How many of the first `k` positions lie in run `r`.
pub open spec fn run_size(same_prev: Seq<bool>, k: int, r: int) -> nat
    decreases k,
{
    if k <= 0 { 0 } else { run_size(same_prev, k - 1, r) + (if run_of(same_prev, k - 1) == r { 1nat } else { 0nat }) }
}

proof fn lemma_run_nonneg(sp: Seq<bool>, p: int)
    ensures
        run_of(sp, p) >= 0,
    decreases p,
{
    if p > 0 {
        lemma_run_nonneg(sp, p - 1);
    }
}

proof fn lemma_run_monotone(sp: Seq<bool>, p: int, q: int)
    requires
        0 <= p <= q,
    ensures
        run_of(sp, p) <= run_of(sp, q) <= run_of(sp, p) + (q - p),
        run_of(sp, p) >= 0,
    decreases q - p,
{
    lemma_run_nonneg(sp, p);
    if q > p {
        lemma_run_monotone(sp, p, q - 1);
    }
}

/// A run that starts after the first `k` positions has none of them.
proof fn lemma_run_size_zero(sp: Seq<bool>, k: int, r: int)
    requires
        k >= 0,
        k > 0 ==> run_of(sp, k - 1) < r,
    ensures
        run_size(sp, k, r) == 0,
    decreases k,
{
    if k > 1 {
        lemma_run_monotone(sp, k - 2, k - 1);
        lemma_run_size_zero(sp, k - 1, r);
    } else if k == 1 {
        assert(run_size(sp, 0, r) == 0);
    }
}

proof fn lemma_run_size_bound(sp: Seq<bool>, k: int, r: int)
    requires
        k >= 0,
    ensures
        run_size(sp, k, r) <= k,
    decreases k,
{
    if k > 0 {
        lemma_run_size_bound(sp, k - 1, r);
    }
}

/// Distinct values below `m` are at most `m` many.
proof fn lemma_distinct_below(s: Seq<usize>, m: int)
    requires
        m >= 0,
        forall|i: int| 0 <= i < s.len() ==> #[trigger] s[i] < m,
        forall|i: int, j: int| 0 <= i < j < s.len() ==> s[i] != s[j],
    ensures
        s.len() <= m,
{
    let t = s.map_values(|x: usize| x as int);
    assert(t.no_duplicates()) by {
        assert forall|i: int, j: int| 0 <= i < t.len() && 0 <= j < t.len() && i != j implies t[i] != t[j] by {
            if i < j {
                assert(s[i] != s[j]);
            } else {
                assert(s[j] != s[i]);
            }
        }
    }
    t.unique_seq_to_set();
    lemma_int_range(0, m);
    assert(t.to_set().subset_of(set_int_range(0, m))) by {
        assert forall|x: int| #[trigger] t.to_set().contains(x) implies set_int_range(0, m).contains(x) by {
            let i = choose|i: int| 0 <= i < t.len() && t[i] == x;
            assert(s[i] < m);
        }
    }
    lemma_len_subset(t.to_set(), set_int_range(0, m));
}

/// A permutation of `0..n` lists every position below `n`.
proof fn lemma_permutation_covers(s: Seq<usize>, n: int, i: int)
    requires
        is_permutation(s, n),
        0 <= i < n,
    ensures
        exists|p: int| 0 <= p < n && s[p] == i,
{
    let t = s.map_values(|x: usize| x as int);
    assert(t.no_duplicates()) by {
        assert forall|a: int, b: int| 0 <= a < t.len() && 0 <= b < t.len() && a != b implies t[a] != t[b] by {
            if a < b {
                assert(s[a] != s[b]);
            } else {
                assert(s[b] != s[a]);
            }
        }
    }
    t.unique_seq_to_set();
    lemma_int_range(0, n);
    assert(t.to_set().subset_of(set_int_range(0, n))) by {
        assert forall|x: int| #[trigger] t.to_set().contains(x) implies set_int_range(0, n).contains(x) by {
            let k = choose|k: int| 0 <= k < t.len() && t[k] == x;
            assert(s[k] < n);
        }
    }
    lemma_len_subset(t.to_set(), set_int_range(0, n));
    lemma_subset_equality(t.to_set(), set_int_range(0, n));
    assert(set_int_range(0, n).contains(i));
    assert(t.to_set().contains(i));
    let p = choose|p: int| 0 <= p < t.len() && t[p] == i;
    assert(s[p] == i);
}

/// The runs of a sorted order, numbered by position: for each run its smallest input
/// index and its size, and for each input index its run.
struct Runs {
    first: Vec<usize>,
    counts: Vec<usize>,
    inverse: Vec<usize>,
}

fn collect_runs(order: &Vec<usize>, same_prev: &Vec<bool>) -> (r: Runs)
    requires
        is_permutation(order@, order@.len() as int),
        same_prev@.len() == order@.len(),
    ensures
        r.first@.len() == run_total(same_prev@, order@.len() as int),
        r.counts@.len() == r.first@.len(),
        r.inverse@.len() == order@.len(),
        forall|p: int| 0 <= p < order@.len() ==> #[trigger] r.inverse@[order@[p] as int] == run_of(same_prev@, p),
        forall|p: int| 0 <= p < order@.len() ==> r.first@[run_of(same_prev@, p)] <= #[trigger] order@[p],
        forall|g: int| 0 <= g < r.first@.len() ==> #[trigger] r.first@[g] < order@.len()
            && r.inverse@[r.first@[g] as int] == g,
        forall|g: int| 0 <= g < r.first@.len() ==> #[trigger] r.counts@[g] == run_size(same_prev@, order@.len() as int, g),
{
    let n = order.len();
    let ghost sp = same_prev@;
    let mut first: Vec<usize> = Vec::new();
    let mut counts: Vec<usize> = Vec::new();
    let mut inverse: Vec<usize> = Vec::new();
    let mut k: usize = 0;
    while k < n
        invariant
            0 <= k <= n,
            inverse@.len() == k,
            forall|j: int| 0 <= j < k ==> inverse@[j] == 0,
        decreases n - k,
    {
        inverse.push(0);
        k = k + 1;
    }
    let ghost mut wit: Seq<int> = Seq::empty();
    let mut pos: usize = 0;
    while pos < n
        invariant
            n == order@.len(),
            sp == same_prev@,
            sp.len() == n,
            is_permutation(order@, n as int),
            0 <= pos <= n,
            first@.len() == run_total(sp, pos as int),
            counts@.len() == first@.len(),
            wit.len() == first@.len(),
            inverse@.len() == n,
            forall|p: int| 0 <= p < pos ==> #[trigger] inverse@[order@[p] as int] == run_of(sp, p),
            forall|p: int| 0 <= p < pos ==> first@[run_of(sp, p)] <= #[trigger] order@[p],
            forall|g: int| 0 <= g < first@.len() ==> 0 <= #[trigger] wit[g] < pos && run_of(sp, wit[g]) == g
                && order@[wit[g]] == first@[g],
            forall|g: int| 0 <= g < first@.len() ==> #[trigger] counts@[g] == run_size(sp, pos as int, g),
        decreases n - pos,
    {
        let ghost old_inverse = inverse@;
        let ghost old_first = first@;
        let ghost old_counts = counts@;
        let i = order[pos];
        proof {
            if pos > 0 {
                lemma_run_monotone(sp, pos - 1, pos as int);
            }
            assert forall|p: int| 0 <= p < pos implies #[trigger] run_of(sp, p) <= run_of(sp, pos - 1) && run_of(sp, p) >= 0 by {
                lemma_run_monotone(sp, p, pos - 1);
            }
            lemma_run_nonneg(sp, pos as int);
        }
        if pos == 0 || !same_prev[pos] {
            proof {
                lemma_run_size_zero(sp, pos as int, run_of(sp, pos as int));
            }
            first.push(i);
            counts.push(1);
            proof {
                wit = wit.push(pos as int);
            }
        } else {
            let g = first.len() - 1;
            proof {
                lemma_run_size_bound(sp, pos as int, g as int);
            }
            counts.set(g, counts[g] + 1);
            if i < first[g] {
                first.set(g, i);
                proof {
                    wit = wit.update(g as int, pos as int);
                }
            }
        }
        let g = first.len() - 1;
        inverse.set(i, g);
        proof {
            assert(g == run_of(sp, pos as int));
            assert forall|p: int| 0 <= p < pos + 1 implies #[trigger] inverse@[order@[p] as int] == run_of(sp, p) by {
                if p < pos {
                    assert(order@[p] != order@[pos as int]);
                }
            }
            assert forall|p: int| 0 <= p < pos + 1 implies first@[run_of(sp, p)] <= #[trigger] order@[p] by {
                if p < pos {
                    assert(0 <= run_of(sp, p) < old_first.len());
                    assert(old_first[run_of(sp, p)] <= order@[p]);
                }
            }
            assert forall|h: int| 0 <= h < first@.len() implies #[trigger] counts@[h] == run_size(sp, pos + 1, h) by {
                if h < old_counts.len() {
                    assert(old_counts[h] == run_size(sp, pos as int, h));
                }
                assert(run_size(sp, pos + 1, h) == run_size(sp, pos as int, h)
                    + (if run_of(sp, pos as int) == h { 1nat } else { 0nat }));
            }
        }
        pos = pos + 1;
    }
    proof {
        assert forall|g: int| 0 <= g < first@.len() implies #[trigger] first@[g] < order@.len()
            && inverse@[first@[g] as int] == g by {
            let p = wit[g];
            assert(inverse@[order@[p] as int] == run_of(sp, p));
        }
    }
    Runs { first, counts, inverse }
}

/// Renumbers runs in the order of their smallest indices: returns the runs in that order, and
/// for each run its new number.
fn by_first_index(first: &Vec<usize>, inv: &Vec<usize>) -> (r: (Vec<usize>, Vec<usize>))
    requires
        forall|i: int| 0 <= i < inv@.len() ==> #[trigger] inv@[i] < first@.len(),
        forall|g: int| 0 <= g < first@.len() ==> #[trigger] first@[g] < inv@.len() && inv@[first@[g] as int] == g,
        forall|i: int| 0 <= i < inv@.len() ==> first@[#[trigger] inv@[i] as int] <= i,
    ensures
        r.0@.len() == first@.len(),
        r.1@.len() == first@.len(),
        forall|g: int| 0 <= g < first@.len() ==> #[trigger] r.1@[g] < first@.len() && r.0@[r.1@[g] as int] == g,
        forall|k: int| 0 <= k < first@.len() ==> #[trigger] r.0@[k] < first@.len() && r.1@[r.0@[k] as int] == k,
        forall|a: int, b: int| 0 <= a < b < first@.len() ==> first@[#[trigger] r.0@[a] as int] < first@[#[trigger] r.0@[b] as int],
{
    let m = first.len();
    let n = inv.len();
    let mut assigned: Vec<bool> = Vec::new();
    let mut remap: Vec<usize> = Vec::new();
    let mut k: usize = 0;
    while k < m
        invariant
            0 <= k <= m,
            assigned@.len() == k,
            remap@.len() == k,
            forall|j: int| 0 <= j < k ==> !#[trigger] assigned@[j],
        decreases m - k,
    {
        assigned.push(false);
        remap.push(0);
        k = k + 1;
    }
    let mut order: Vec<usize> = Vec::new();
    let mut i: usize = 0;
    while i < n
        invariant
            m == first@.len(),
            n == inv@.len(),
            forall|i: int| 0 <= i < inv@.len() ==> #[trigger] inv@[i] < first@.len(),
            forall|g: int| 0 <= g < first@.len() ==> #[trigger] first@[g] < inv@.len() && inv@[first@[g] as int] == g,
            forall|i: int| 0 <= i < inv@.len() ==> first@[#[trigger] inv@[i] as int] <= i,
            0 <= i <= n,
            assigned@.len() == m,
            remap@.len() == m,
            order@.len() <= i,
            forall|g: int| 0 <= g < m ==> (#[trigger] assigned@[g] <==> first@[g] < i),
            forall|g: int| 0 <= g < m && #[trigger] assigned@[g] ==> remap@[g] < order@.len() && order@[remap@[g] as int] == g,
            forall|q: int| 0 <= q < order@.len() ==> #[trigger] order@[q] < m && assigned@[order@[q] as int]
                && remap@[order@[q] as int] == q && first@[order@[q] as int] < i,
            forall|a: int, b: int| 0 <= a < b < order@.len() ==> first@[#[trigger] order@[a] as int] < first@[#[trigger] order@[b] as int],
        decreases n - i,
    {
        let g = inv[i];
        proof {
            assert forall|h: int| 0 <= h < m && first@[h] == i implies h == g by {
                assert(inv@[first@[h] as int] == h);
            }
        }
        if !assigned[g] {
            let ghost old_order = order@;
            let ghost old_remap = remap@;
            let ghost old_assigned = assigned@;
            assert(first@[g as int] == i);
            remap.set(g, order.len());
            assigned.set(g, true);
            order.push(g);
            proof {
                assert forall|h: int| 0 <= h < m && #[trigger] assigned@[h] implies remap@[h] < order@.len() && order@[remap@[h] as int] == h by {
                    if h != g {
                        assert(old_assigned[h]);
                    }
                }
                assert forall|q: int| 0 <= q < order@.len() implies #[trigger] order@[q] < m && assigned@[order@[q] as int]
                    && remap@[order@[q] as int] == q && first@[order@[q] as int] < i + 1 by {
                    if q < old_order.len() {
                        assert(old_order[q] != g);
                    }
                }
            }
        }
        i = i + 1;
    }
    proof {
        assert forall|g: int| 0 <= g < m implies #[trigger] assigned@[g] by {
            assert(first@[g] < n);
        }
        assert forall|a: int, b: int| 0 <= a < b < order@.len() implies order@[a] != order@[b] by {
            assert(remap@[order@[a] as int] == a);
            assert(remap@[order@[b] as int] == b);
        }
        lemma_distinct_below(order@, m as int);
        assert forall|a: int, b: int| 0 <= a < b < remap@.len() implies remap@[a] != remap@[b] by {
            assert(assigned@[a] && assigned@[b]);
            assert(order@[remap@[a] as int] == a);
            assert(order@[remap@[b] as int] == b);
        }
        assert forall|g: int| 0 <= g < remap@.len() implies #[trigger] remap@[g] < order@.len() by {
            assert(assigned@[g]);
        }
        lemma_distinct_below(remap@, order@.len() as int);
    }
    (order, remap)
}

/// The distinct rows of an array along an axis, told apart by a sorted order of the rows and
/// the comparison of each row in that order with the one before it: the runs of equal rows
/// are the groups. `index` lists each group's smallest row index, `counts` its size, and
/// `inverse` gives each row its group. Groups are numbered by their place in the sorted order
/// when `sorted` holds, else by their smallest index.
pub open spec fn describes_runs(order: Seq<usize>, sp: Seq<bool>, sorted: bool, index: Seq<usize>,
    inverse: Seq<usize>, counts: Seq<usize>) -> bool
{
    let n = order.len() as int;
    let m = run_total(sp, n);
    &&& index.len() == m
    &&& counts.len() == m
    &&& inverse.len() == n
    &&& forall|i: int| 0 <= i < n ==> #[trigger] inverse[i] < m
    &&& forall|p: int, q: int| 0 <= p < n && 0 <= q < n ==>
        (inverse[#[trigger] order[p] as int] == inverse[#[trigger] order[q] as int] <==> run_of(sp, p) == run_of(sp, q))
    &&& forall|p: int| 0 <= p < n ==> index[inverse[#[trigger] order[p] as int] as int] <= order[p]
    &&& forall|g: int| 0 <= g < m ==> #[trigger] index[g] < n && inverse[index[g] as int] == g
    &&& forall|p: int| 0 <= p < n ==> counts[inverse[#[trigger] order[p] as int] as int] == run_size(sp, n, run_of(sp, p))
    &&& sorted ==> forall|p: int| 0 <= p < n ==> inverse[#[trigger] order[p] as int] == run_of(sp, p)
    &&& !sorted ==> forall|g: int, h: int| 0 <= g < h < m ==> #[trigger] index[g] < #[trigger] index[h]
}

/// The distinct rows along an axis, with the group bookkeeping of `describes_runs`.
pub struct UniqueRows<T> {
    pub values: NdArray<T>,
    pub index: Vec<usize>,
    pub inverse: Vec<usize>,
    pub counts: Vec<usize>,
}

/// The distinct rows of `a` along `axis`. Row `i` is the sub-array at position `i` along the
/// axis; `order` lists the rows sorted, and `same_prev[p]` tells whether row `order[p]` equals
/// row `order[p - 1]`. The result holds the first row of each group, in group order, along
/// the axis. An array without dimensions and an axis out of bounds are refused.
pub fn unique_axis<T: Copy>(a: &NdArray<T>, axis: isize, order: &Vec<usize>, same_prev: &Vec<bool>, sorted: bool)
    -> (r: Result<UniqueRows<T>, ArrayError>)
    requires
        a.wf(),
        dims_fit(a.shape@),
        a.shape@.len() > 0 && axis_ok(axis as int, a.shape@.len() as int) ==> {
            let n = a.shape@[norm_axis(axis as int, a.shape@.len() as int)] as int;
            is_permutation(order@, n) && same_prev@.len() == n
        },
    ensures
        a.shape@.len() == 0 ==> r == Err::<UniqueRows<T>, ArrayError>(ArrayError::InvalidDimension),
        a.shape@.len() > 0 && !axis_ok(axis as int, a.shape@.len() as int) ==>
            r == Err::<UniqueRows<T>, ArrayError>(ArrayError::AxisOutOfBounds),
        a.shape@.len() > 0 && axis_ok(axis as int, a.shape@.len() as int) ==> (r matches Ok(u) && {
            let ax = norm_axis(axis as int, a.shape@.len() as int);
            &&& describes_runs(order@, same_prev@, sorted, u.index@, u.inverse@, u.counts@)
            &&& u.values.wf()
            &&& u.values.shape@ == a.shape@.update(ax, u.index@.len() as usize)
            &&& u.values.data@ == gathered(a.data@, pre_of(a.shape@, ax) as int, a.shape@[ax] as int,
                post_of(a.shape@, ax) as int, u.index@)
        }),
{
    let ndim = a.shape.len();
    if ndim == 0 {
        return Err(ArrayError::InvalidDimension);
    }
    let ax = match normalize_axis(axis, ndim) {
        None => {
            return Err(ArrayError::AxisOutOfBounds);
        },
        Some(x) => x,
    };
    let ghost n = order@.len() as int;
    let ghost sp = same_prev@;
    let runs = collect_runs(order, same_prev);
    let ghost m = runs.first@.len() as int;
    proof {
        assert forall|i: int| 0 <= i < n implies #[trigger] runs.inverse@[i] < m
            && runs.first@[runs.inverse@[i] as int] <= i by {
            lemma_permutation_covers(order@, n, i);
            let p = choose|p: int| 0 <= p < n && order@[p] == i;
            assert(runs.inverse@[order@[p] as int] == run_of(sp, p));
            lemma_run_monotone(sp, p, n - 1);
        }
    }
    let (index, inverse, counts) = if sorted {
        (runs.first, runs.inverse, runs.counts)
    } else {
        let (groups, remap) = by_first_index(&runs.first, &runs.inverse);
        let mut index: Vec<usize> = Vec::new();
        let mut counts: Vec<usize> = Vec::new();
        let mut k: usize = 0;
        while k < groups.len()
            invariant
                0 <= k <= groups@.len(),
                groups@.len() == runs.first@.len(),
                runs.counts@.len() == runs.first@.len(),
                forall|q: int| 0 <= q < groups@.len() ==> #[trigger] groups@[q] < runs.first@.len(),
                index@.len() == k,
                counts@.len() == k,
                forall|q: int| 0 <= q < k ==> #[trigger] index@[q] == runs.first@[groups@[q] as int],
                forall|q: int| 0 <= q < k ==> #[trigger] counts@[q] == runs.counts@[groups@[q] as int],
            decreases groups@.len() - k,
        {
            index.push(runs.first[groups[k]]);
            counts.push(runs.counts[groups[k]]);
            k = k + 1;
        }
        let mut inverse: Vec<usize> = Vec::new();
        let mut i: usize = 0;
        while i < runs.inverse.len()
            invariant
                0 <= i <= runs.inverse@.len(),
                remap@.len() == runs.first@.len(),
                forall|j: int| 0 <= j < runs.inverse@.len() ==> #[trigger] runs.inverse@[j] < runs.first@.len(),
                inverse@.len() == i,
                forall|j: int| 0 <= j < i ==> #[trigger] inverse@[j] == remap@[runs.inverse@[j] as int],
            decreases runs.inverse@.len() - i,
        {
            inverse.push(remap[runs.inverse[i]]);
            i = i + 1;
        }
        proof {
            assert forall|p: int, q: int| 0 <= p < n && 0 <= q < n implies
                (inverse@[#[trigger] order@[p] as int] == inverse@[#[trigger] order@[q] as int] <==> run_of(sp, p) == run_of(sp, q)) by {
                let gp = runs.inverse@[order@[p] as int];
                let gq = runs.inverse@[order@[q] as int];
                assert(groups@[remap@[gp as int] as int] == gp);
                assert(groups@[remap@[gq as int] as int] == gq);
            }
            assert forall|p: int| 0 <= p < n implies index@[inverse@[#[trigger] order@[p] as int] as int] <= order@[p] by {
                let g = runs.inverse@[order@[p] as int];
                assert(groups@[remap@[g as int] as int] == g);
            }
            assert forall|g: int| 0 <= g < m implies #[trigger] index@[g] < n && inverse@[index@[g] as int] == g by {
                let h = groups@[g];
                assert(runs.inverse@[runs.first@[h as int] as int] == h);
            }
            assert forall|p: int| 0 <= p < n implies
                counts@[inverse@[#[trigger] order@[p] as int] as int] == run_size(sp, n, run_of(sp, p)) by {
                let g = runs.inverse@[order@[p] as int];
                assert(groups@[remap@[g as int] as int] == g);
            }
            assert forall|g: int, h: int| 0 <= g < h < m implies #[trigger] index@[g] < #[trigger] index@[h] by {
                assert(runs.first@[groups@[g] as int] < runs.first@[groups@[h] as int]);
            }
        }
        (index, inverse, counts)
    };
    let (pre, len, post) = axis_layout(&a.shape, ax);
    proof {
        if n > 0 {
            lemma_run_monotone(sp, 0, n - 1);
        }
        assert(index@.len() <= len);
        assert(a.shape@.subrange(0, a.shape@.len() as int) =~= a.shape@);
        assert(prod(a.shape@.subrange(0, a.shape@.len() as int)) <= usize::MAX);
        assert(pre * index@.len() * post <= pre * len * post) by (nonlinear_arith)
            requires
                index@.len() <= len;
    }
    let values = gather_along(a, ax, &index);
    Ok(UniqueRows { values, index, inverse, counts })
}

/// `a <= b` on bit patterns.
pub open spec fn bits_le() -> spec_fn(u64, u64) -> bool {
    |a: u64, b: u64| a <= b
}

/// `slice::sort` of `std` on a vector of 64-bit patterns: afterwards the vector is in
/// ascending order and holds the same elements, each as often as before.
#[verifier::external_body]
fn sort_bits(v: &mut Vec<u64>)
    ensures
        sorted_by(final(v)@, bits_le()),
        final(v)@.to_multiset() == old(v)@.to_multiset(),
{
    v.sort();
}

/// The distinct values among `values` (bit patterns of the elements), in ascending order.
pub fn unique(values: &Vec<u64>) -> (r: Vec<u64>)
    ensures
        forall|i: int, j: int| 0 <= i < j < r@.len() ==> #[trigger] r@[i] < #[trigger] r@[j],
        forall|x: u64| r@.contains(x) <==> values@.contains(x),
{
    let mut s = values.clone();
    proof {
        assert(s@ == values@);
    }
    sort_bits(&mut s);
    let mut out: Vec<u64> = Vec::new();
    let mut i: usize = 0;
    while i < s.len()
        invariant
            0 <= i <= s@.len(),
            sorted_by(s@, bits_le()),
            forall|a: int, b: int| 0 <= a < b < out@.len() ==> #[trigger] out@[a] < #[trigger] out@[b],
            forall|j: int| 0 <= j < i ==> out@.contains(#[trigger] s@[j]),
            forall|k: int| 0 <= k < out@.len() ==> s@.subrange(0, i as int).contains(#[trigger] out@[k]),
            i > 0 ==> out@.len() > 0 && out@.last() == s@[i - 1],
            i == 0 ==> out@.len() == 0,
        decreases s@.len() - i,
    {
        let v = s[i];
        let ghost old_out = out@;
        if out.len() == 0 || out[out.len() - 1] != v {
            proof {
                if i > 0 {
                    assert(bits_le()(s@[i - 1], s@[i as int]));
                }
            }
            out.push(v);
            proof {
                assert forall|j: int| 0 <= j < i + 1 implies out@.contains(#[trigger] s@[j]) by {
                    if j < i {
                        assert(old_out.contains(s@[j]));
                        let k = choose|k: int| 0 <= k < old_out.len() && old_out[k] == s@[j];
                        assert(out@[k] == s@[j]);
                    } else {
                        assert(out@[old_out.len() as int] == s@[j]);
                    }
                }
            }
        } else {
            proof {
                assert(out@[out@.len() - 1] == s@[i as int]);
            }
        }
        proof {
            assert forall|k: int| 0 <= k < out@.len() implies s@.subrange(0, i + 1).contains(#[trigger] out@[k]) by {
                if k < old_out.len() {
                    assert(s@.subrange(0, i as int).contains(old_out[k]));
                    let j = choose|j: int| 0 <= j < i && s@.subrange(0, i as int)[j] == old_out[k];
                    assert(s@.subrange(0, i + 1)[j] == out@[k]);
                } else {
                    assert(s@.subrange(0, i + 1)[i as int] == out@[k]);
                }
            }
        }
        i = i + 1;
    }
    proof {
        broadcast use vstd::seq_lib::group_to_multiset_ensures;
        assert forall|x: u64| out@.contains(x) <==> values@.contains(x) by {
            assert(s@.to_multiset().count(x) == values@.to_multiset().count(x));
            if out@.contains(x) {
                let k = choose|k: int| 0 <= k < out@.len() && out@[k] == x;
                assert(s@.subrange(0, s@.len() as int) =~= s@);
                assert(s@.subrange(0, s@.len() as int).contains(out@[k]));
            }
            if s@.contains(x) {
                let j = choose|j: int| 0 <= j < s@.len() && s@[j] == x;
                assert(out@.contains(s@[j]));
            }
        }
    }
    out
}

} // verus!

use vstd::prelude::*;
use crate::array::NdArray;
use crate::shape::lemma_prod_single;

verus! {

/// How many of the first `i` values equal `v`.
pub open spec fn occurrences(s: Seq<i64>, v: int, i: int) -> nat
    decreases i,
{
    if i <= 0 {
        0
    } else {
        occurrences(s, v, i - 1) + if s[i - 1] as int == v { 1nat } else { 0nat }
    }
}

/// The largest of the first `i` values, or -1 when that is larger.
pub open spec fn max_or_neg_one(s: Seq<i64>, i: int) -> int
    decreases i,
{
    if i <= 0 {
        -1
    } else {
        let m = max_or_neg_one(s, i - 1);
        if s[i - 1] as int > m { s[i - 1] as int } else { m }
    }
}

/// The number of bins: one past the largest value, and at least `minlength`.
pub open spec fn bin_count(s: Seq<i64>, minlength: int) -> int {
    let top = max_or_neg_one(s, s.len() as int) + 1;
    if minlength > top { minlength } else { top }
}

proof fn lemma_occurrences_le(s: Seq<i64>, v: int, i: int)
    requires
        0 <= i <= s.len(),
    ensures
        occurrences(s, v, i) <= i,
    decreases i,
{
    if i > 0 {
        lemma_occurrences_le(s, v, i - 1);
    }
}

proof fn lemma_max_bounds(s: Seq<i64>, i: int)
    requires
        0 <= i <= s.len(),
    ensures
        max_or_neg_one(s, i) >= -1,
        max_or_neg_one(s, i) <= i64::MAX,
        forall|j: int| 0 <= j < i ==> s[j] as int <= max_or_neg_one(s, i),
    decreases i,
{
    if i > 0 {
        lemma_max_bounds(s, i - 1);
    }
}

/// Counting the first `i` values one by one counts each value as often as it occurs in them.
proof fn lemma_occurrences_count(s: Seq<i64>, v: i64, i: int)
    requires
        0 <= i <= s.len(),
    ensures
        occurrences(s, v as int, i) == s.take(i).to_multiset().count(v),
    decreases i,
{
    broadcast use vstd::seq_lib::to_multiset_build;
    broadcast use vstd::multiset::group_multiset_axioms;
    if i == 0 {
        assert(s.take(0) =~= Seq::<i64>::empty());
        vstd::seq_lib::to_multiset_len(s.take(0));
        vstd::multiset::lemma_multiset_empty_len(s.take(0).to_multiset());
    } else {
        lemma_occurrences_count(s, v, i - 1);
        assert(s.take(i) =~= s.take(i - 1).push(s[i - 1]));
    }
}

/// The bins of `bincount`: bin `k` holds the number of times `k` occurs among the values,
/// every value that is not negative has its bin, and there are more bins than `minlength`
/// only when the largest value sits in the last one.
pub proof fn law_bincount_bins(s: Seq<i64>, minlength: int, k: i64)
    requires
        minlength >= 0,
    ensures
        occurrences(s, k as int, s.len() as int) == s.to_multiset().count(k),
        forall|j: int| 0 <= j < s.len() && s[j] >= 0 ==> s[j] < #[trigger] bin_count(s, minlength),
        bin_count(s, minlength) >= minlength,
        bin_count(s, minlength) > minlength ==> exists|j: int| 0 <= j < s.len() && s[j] == bin_count(s, minlength) - 1,
{
    lemma_occurrences_count(s, k, s.len() as int);
    assert(s.take(s.len() as int) =~= s);
    lemma_max_bounds(s, s.len() as int);
    lemma_max_attained(s, s.len() as int);
}

/// The largest of the first `i` values is one of them, unless it is -1.
proof fn lemma_max_attained(s: Seq<i64>, i: int)
    requires
        0 <= i <= s.len(),
    ensures
        max_or_neg_one(s, i) == -1 || exists|j: int| 0 <= j < i && s[j] == max_or_neg_one(s, i),
    decreases i,
{
    if i > 0 {
        lemma_max_attained(s, i - 1);
    }
}

/// Counts, for each `k` from 0 up to the number of bins, how many values of `x` equal `k`;
/// there is one bin past the largest value and at least `minlength` bins. Negative values
/// are counted nowhere.
pub fn bincount(x: &NdArray<i64>, minlength: usize) -> (r: NdArray<usize>)
    requires
        minlength <= i64::MAX,
        bin_count(x.data@, minlength as int) <= usize::MAX,
    ensures
        r.wf(),
        r.shape@ == seq![bin_count(x.data@, minlength as int) as usize],
        forall|k: int| 0 <= k < r.data@.len() ==> #[trigger] r.data@[k] == occurrences(x.data@, k, x.data@.len() as int),
{
    let len = x.data.len();
    let mut max_val: i64 = -1;
    let mut i: usize = 0;
    while i < len
        invariant
            0 <= i <= len,
            len == x.data@.len(),
            max_val == max_or_neg_one(x.data@, i as int),
        decreases len - i,
    {
        if x.data[i] > max_val {
            max_val = x.data[i];
        }
        i = i + 1;
    }
    proof {
        lemma_max_bounds(x.data@, len as int);
    }
    let n: usize = if (minlength as i64) > max_val {
        minlength
    } else {
        (max_val as u64 + 1) as usize
    };
    assert(n == bin_count(x.data@, minlength as int));
    let mut counts: Vec<usize> = Vec::new();
    let mut k: usize = 0;
    while k < n
        invariant
            0 <= k <= n,
            counts@.len() == k,
            forall|q: int| 0 <= q < k ==> #[trigger] counts@[q] == 0,
        decreases n - k,
    {
        counts.push(0);
        k = k + 1;
    }
    let mut i: usize = 0;
    while i < len
        invariant
            0 <= i <= len,
            len == x.data@.len(),
            counts@.len() == n,
            forall|q: int| 0 <= q < n ==> #[trigger] counts@[q] == occurrences(x.data@, q, i as int),
        decreases len - i,
    {
        let v = x.data[i];
        proof {
            assert forall|q: int| 0 <= q < n implies #[trigger] counts@[q] <= i by {
                lemma_occurrences_le(x.data@, q, i as int);
            }
        }
        if v >= 0 && (v as u64) < (n as u64) {
            let b = v as usize;
            let c = counts[b];
            counts.set(b, c + 1);
        }
        i = i + 1;
    }
    let shape = vec![n];
    proof {
        assert(shape@ =~= seq![n]);
        lemma_prod_single(seq![n]);
    }
    NdArray { data: counts, shape }
}

} // verus!

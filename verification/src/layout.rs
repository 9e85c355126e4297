use vstd::prelude::*;
use crate::index_math::{flat3, lemma_flat3, lemma_unflat3};

verus! {

/// An element-by-element copy of a vector.
pub fn copy_vec<T: Copy>(v: &Vec<T>) -> (r: Vec<T>)
    ensures
        r@ == v@,
{
    let mut r: Vec<T> = Vec::new();
    let mut i: usize = 0;
    while i < v.len()
        invariant
            0 <= i <= v@.len(),
            r@ == v@.take(i as int),
        decreases v@.len() - i,
    {
        r.push(v[i]);
        proof {
            assert(v@.take(i as int + 1) =~= v@.take(i as int).push(v@[i as int]));
        }
        i = i + 1;
    }
    assert(v@.take(v@.len() as int) =~= v@);
    r
}

/// The elements of `data` at the listed positions, in order.
pub open spec fn picked<T>(data: Seq<T>, sel: Seq<usize>) -> Seq<T> {
    sel.map_values(|i: usize| data[i as int])
}

/// The positions `i < n` with `cond[i]` true (positions beyond `cond` count as false), ascending.
pub open spec fn true_positions(cond: Seq<bool>, n: int) -> Seq<usize>
    decreases n,
{
    if n <= 0 {
        Seq::empty()
    } else if n - 1 < cond.len() && cond[n - 1] {
        true_positions(cond, n - 1).push((n - 1) as usize)
    } else {
        true_positions(cond, n - 1)
    }
}

/// Every listed position is below `n`.
pub proof fn lemma_true_positions_bound(cond: Seq<bool>, n: int)
    ensures
        forall|k: int| 0 <= k < true_positions(cond, n).len() ==> #[trigger] true_positions(cond, n)[k] < n,
        true_positions(cond, n).len() <= if n < 0 { 0 } else { n },
    decreases n,
{
    if n > 0 {
        lemma_true_positions_bound(cond, n - 1);
    }
}

/// The positions `i < n` (`n <= cond.len()`) with `cond[i]`, ascending.
pub fn true_positions_exec(cond: &Vec<bool>, n: usize) -> (r: Vec<usize>)
    ensures
        r@ == true_positions(cond@, n as int),
{
    let mut r: Vec<usize> = Vec::new();
    let mut i: usize = 0;
    while i < n
        invariant
            0 <= i <= n,
            r@ == true_positions(cond@, i as int),
        decreases n - i,
    {
        if i < cond.len() && cond[i] {
            r.push(i);
        }
        i = i + 1;
    }
    r
}

/// The elements of `data` at the listed positions.
pub fn pick<T: Copy>(data: &Vec<T>, sel: &Vec<usize>) -> (r: Vec<T>)
    requires
        forall|k: int| 0 <= k < sel@.len() ==> sel@[k] < data@.len(),
    ensures
        r@ == picked(data@, sel@),
{
    let mut r: Vec<T> = Vec::new();
    let mut k: usize = 0;
    while k < sel.len()
        invariant
            0 <= k <= sel@.len(),
            forall|k2: int| 0 <= k2 < sel@.len() ==> sel@[k2] < data@.len(),
            r@ =~= picked(data@, sel@).take(k as int),
        decreases sel@.len() - k,
    {
        r.push(data[sel[k]]);
        k = k + 1;
    }
    assert(picked(data@, sel@).take(sel@.len() as int) =~= picked(data@, sel@));
    r
}

/// The buffer obtained from a C-order buffer viewed as `[pre, n, post]` by taking, for each
/// `k`, entry `sel[k]` of the middle axis as entry `k` of the result's middle axis.
pub open spec fn gathered<T>(data: Seq<T>, pre: int, n: int, post: int, sel: Seq<usize>) -> Seq<T> {
    let m = sel.len() as int;
    Seq::new((pre * m * post) as nat, |j: int| data[flat3(j / post / m, sel[(j / post) % m] as int, j % post, n, post)])
}

/// Selects positions along the middle axis of a C-order buffer viewed as `[pre, n, post]`:
/// entry `k` of the middle axis of the result is entry `sel[k]` of the source.
pub fn gather_axis<T: Copy>(data: &Vec<T>, pre: usize, n: usize, post: usize, sel: &Vec<usize>) -> (out: Vec<T>)
    requires
        data@.len() == pre * n * post,
        forall|k: int| 0 <= k < sel@.len() ==> sel@[k] < n,
        pre * sel@.len() * post <= usize::MAX,
    ensures
        out@.len() == pre * sel@.len() * post,
        out@ == gathered(data@, pre as int, n as int, post as int, sel@),
        forall|o: int, k: int, i: int|
            0 <= o < pre && 0 <= k < sel@.len() && 0 <= i < post ==> #[trigger] out@[flat3(o, k, i, sel@.len() as int, post as int)]
                == data@[flat3(o, sel@[k] as int, i, n as int, post as int)],
{
    let m = sel.len();
    let total: usize = if m == 0 || post == 0 {
        assert(pre * m * post == 0) by (nonlinear_arith) requires m == 0 || post == 0;
        0
    } else {
        assert(pre * m <= pre * m * post) by (nonlinear_arith) requires post >= 1, pre * m >= 0;
        pre * m * post
    };
    let dlen = data.len();
    let mut out: Vec<T> = Vec::new();
    let mut j: usize = 0;
    while j < total
        invariant
            total == pre * m * post,
            m == sel@.len(),
            data@.len() == pre * n * post,
            dlen == data@.len(),
            forall|k: int| 0 <= k < sel@.len() ==> sel@[k] < n,
            0 <= j <= total,
            out@.len() == j,
            forall|j2: int| 0 <= j2 < j ==> #[trigger] out@[j2] == data@[flat3(j2 / post as int / m as int, sel@[(j2 / post as int) % m as int] as int, j2 % post as int, n as int, post as int)],
        decreases total - j,
    {
        proof {
            lemma_unflat3(j as int, pre as int, m as int, post as int);
        }
        let q = j / post;
        let i = j % post;
        let o = q / m;
        let k = q % m;
        let s = sel[k];
        proof {
            lemma_flat3(o as int, s as int, i as int, pre as int, n as int, post as int);
            assert(o * n + s < pre * n) by (nonlinear_arith) requires o < pre, s < n;
            assert((o * n + s) * post <= (o * n + s) * post + i) by (nonlinear_arith) requires i >= 0, (o * n + s) * post >= 0;
            assert(o * n <= o * n + s);
            assert(pre * n <= pre * n * post) by (nonlinear_arith) requires post >= 1, pre * n >= 0;
        }
        let src = (o * n + s) * post + i;
        out.push(data[src]);
        j = j + 1;
    }
    assert forall|o: int, k: int, i: int|
        0 <= o < pre && 0 <= k < m && 0 <= i < post implies #[trigger] out@[flat3(o, k, i, m as int, post as int)]
            == data@[flat3(o, sel@[k] as int, i, n as int, post as int)] by {
        lemma_flat3(o, k, i, pre as int, m as int, post as int);
    }
    assert(out@ =~= gathered(data@, pre as int, n as int, post as int, sel@));
    out
}

} // verus!

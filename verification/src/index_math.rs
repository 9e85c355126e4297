use vstd::prelude::*;
use vstd::arithmetic::div_mod::{lemma_fundamental_div_mod, lemma_fundamental_div_mod_converse, lemma_mod_bound};
use vstd::arithmetic::mul::lemma_mul_is_associative;

verus! {

/// Position of element `(o, k, i)` of a C-order buffer viewed as `[_, m, post]`.
pub open spec fn flat3(o: int, k: int, i: int, m: int, post: int) -> int {
    (o * m + k) * post + i
}

/// Bounds and exact decomposition of `flat3`.
pub proof fn lemma_flat3(o: int, k: int, i: int, pre: int, m: int, post: int)
    requires
        0 <= o < pre,
        0 <= k < m,
        0 <= i < post,
    ensures
        0 <= flat3(o, k, i, m, post) < pre * m * post,
        flat3(o, k, i, m, post) / post == o * m + k,
        flat3(o, k, i, m, post) % post == i,
        (o * m + k) / m == o,
        (o * m + k) % m == k,
{
    let q = o * m + k;
    assert(0 <= q < pre * m) by (nonlinear_arith)
        requires 0 <= o < pre, 0 <= k < m, q == o * m + k;
    assert(0 <= q * post + i < pre * m * post) by (nonlinear_arith)
        requires 0 <= q < pre * m, 0 <= i < post;
    lemma_fundamental_div_mod_converse(q * post + i, post, q, i);
    lemma_fundamental_div_mod_converse(q, m, o, k);
}

/// Any position below `pre * m * post` is `flat3` of its own coordinates.
pub proof fn lemma_unflat3(j: int, pre: int, m: int, post: int)
    requires
        pre >= 0,
        m >= 0,
        post >= 0,
        0 <= j < pre * m * post,
    ensures
        post > 0,
        m > 0,
        0 <= j / post / m < pre,
        0 <= (j / post) % m < m,
        0 <= j % post < post,
        j == flat3(j / post / m, (j / post) % m, j % post, m, post),
{
    assert(post > 0 && m > 0 && pre > 0) by {
        if post == 0 || m == 0 || pre == 0 {
            assert(pre * m * post == 0) by (nonlinear_arith)
                requires post == 0 || m == 0 || pre == 0;
        }
    }
    let q = j / post;
    lemma_fundamental_div_mod(j, post);
    lemma_mod_bound(j, post);
    assert(0 <= q < pre * m) by (nonlinear_arith)
        requires j == post * q + j % post, 0 <= j % post < post, 0 <= j < pre * m * post, post > 0;
    lemma_fundamental_div_mod(q, m);
    lemma_mod_bound(q, m);
    assert(0 <= q / m < pre) by (nonlinear_arith)
        requires q == m * (q / m) + q % m, 0 <= q % m < m, 0 <= q < pre * m, m > 0;
    assert(j == ((q / m) * m + q % m) * post + j % post) by (nonlinear_arith)
        requires q == m * (q / m) + q % m, j == post * q + j % post;
}

} // verus!

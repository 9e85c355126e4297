use vstd::prelude::*;
use vstd::arithmetic::div_mod::{lemma_div_denominator, lemma_fundamental_div_mod, lemma_fundamental_div_mod_converse, lemma_mod_bound};
use crate::shape::{dims_fit, lemma_prod_axis, lemma_prod_split, post_of, prod};

verus! {

/// C-order stride of dimension `d`: the product of the later dimensions.
pub open spec fn stride(s: Seq<usize>, d: int) -> nat {
    post_of(s, d)
}

/// Flat C-order position of the multi-index `m` (sum of `m[e] * stride(e)` for `e >= d`).
pub open spec fn ravel_from(m: Seq<int>, s: Seq<usize>, d: int) -> int
    decreases s.len() - d,
{
    if d >= s.len() || d < 0 {
        0
    } else {
        m[d] * (stride(s, d) as int) + ravel_from(m, s, d + 1)
    }
}

/// Flat C-order position of the multi-index `m` in an array of shape `s`.
pub open spec fn ravel(m: Seq<int>, s: Seq<usize>) -> int {
    ravel_from(m, s, 0)
}

/// Coordinate `d` of the element at flat C-order position `f` of an array of shape `s`.
pub open spec fn unravel_coord(f: int, s: Seq<usize>, d: int) -> int {
    (f / (stride(s, d) as int)) % (s[d] as int)
}

/// The multi-index of the element at flat C-order position `f`.
pub open spec fn unravel(f: int, s: Seq<usize>) -> Seq<int> {
    Seq::new(s.len(), |d: int| unravel_coord(f, s, d))
}

/// The multi-index lies inside the shape.
pub open spec fn in_bounds(m: Seq<int>, s: Seq<usize>) -> bool {
    m.len() == s.len() && forall|d: int| 0 <= d < s.len() ==> 0 <= #[trigger] m[d] < s[d]
}

/// Horner value of the first `d` coordinates.
pub open spec fn ravel_prefix(m: Seq<int>, s: Seq<usize>, d: int) -> int
    decreases d,
{
    if d <= 0 {
        0
    } else {
        ravel_prefix(m, s, d - 1) * (s[d - 1] as int) + m[d - 1]
    }
}

/// Strides are linked: `stride(d - 1) == s[d] * stride(d)`.
pub proof fn lemma_stride_step(s: Seq<usize>, d: int)
    requires
        0 <= d < s.len(),
    ensures
        prod(s.skip(d)) == (s[d] as nat) * stride(s, d),
        d >= 1 ==> stride(s, d - 1) == (s[d] as nat) * stride(s, d),
{
    lemma_prod_axis(s, d);
    if d >= 1 {
        assert(s.skip(d - 1 + 1) =~= s.skip(d));
    }
}

/// The part of the position given by coordinates from `d` on is below `prod(s.skip(d))`.
pub proof fn lemma_ravel_from_bound(m: Seq<int>, s: Seq<usize>, d: int)
    requires
        in_bounds(m, s),
        0 <= d <= s.len(),
    ensures
        0 <= ravel_from(m, s, d) < prod(s.skip(d)) || (ravel_from(m, s, d) == 0 && prod(s.skip(d)) == 0),
        0 <= ravel_from(m, s, d),
        d < s.len() ==> ravel_from(m, s, d) < prod(s.skip(d)),
    decreases s.len() - d,
{
    if d == s.len() {
        assert(s.skip(d).len() == 0);
        assert(prod(s.skip(d)) == 1);
    } else {
        lemma_ravel_from_bound(m, s, d + 1);
        lemma_stride_step(s, d);
        let st = stride(s, d) as int;
        let r = ravel_from(m, s, d + 1);
        assert(s.skip(d + 1) =~= s.skip(d + 1));
        if d + 1 < s.len() {
            assert(r < st);
        } else {
            assert(s.skip(d + 1).len() == 0);
            assert(prod(s.skip(d + 1)) == 1);
        }
        assert(0 <= r < st);
        let md = m[d];
        let sd = s[d] as int;
        assert(0 <= md < sd);
        assert(0 <= md * st + r < sd * st) by (nonlinear_arith)
            requires 0 <= md < sd, 0 <= r < st;
    }
}

/// The position splits into the prefix's Horner value times the remaining size plus the rest.
pub proof fn lemma_ravel_split(m: Seq<int>, s: Seq<usize>, d: int)
    requires
        0 <= d <= s.len(),
    ensures
        ravel(m, s) == ravel_prefix(m, s, d) * (prod(s.skip(d)) as int) + ravel_from(m, s, d),
    decreases d,
{
    if d == 0 {
        assert(s.skip(0) =~= s);
    } else {
        lemma_ravel_split(m, s, d - 1);
        lemma_stride_step(s, d - 1);
        let p = ravel_prefix(m, s, d - 1);
        let sd = s[d - 1] as int;
        let st = stride(s, d - 1) as int;
        assert(s.skip(d - 1 + 1) =~= s.skip(d));
        assert(p * (sd * st) + (m[d - 1] * st + ravel_from(m, s, d)) == (p * sd + m[d - 1]) * st + ravel_from(m, s, d))
            by (nonlinear_arith);
    }
}

/// A multi-index inside the shape has a position inside the array.
pub proof fn lemma_ravel_bound(m: Seq<int>, s: Seq<usize>)
    requires
        in_bounds(m, s),
    ensures
        0 <= ravel(m, s) < prod(s) || s.len() == 0 && ravel(m, s) == 0,
{
    lemma_ravel_from_bound(m, s, 0);
    assert(s.skip(0) =~= s);
    if s.len() == 0 {
        assert(prod(s) == 1);
    }
}

/// Unraveling the position of a multi-index inside the shape gives the multi-index back.
pub proof fn lemma_unravel_ravel(m: Seq<int>, s: Seq<usize>)
    requires
        in_bounds(m, s),
    ensures
        unravel(ravel(m, s), s) =~= m,
{
    assert forall|d: int| 0 <= d < s.len() implies #[trigger] unravel_coord(ravel(m, s), s, d) == m[d] by {
        lemma_ravel_split(m, s, d);
        lemma_stride_step(s, d);
        lemma_ravel_from_bound(m, s, d + 1);
        let p = ravel_prefix(m, s, d);
        let sd = s[d] as int;
        let st = stride(s, d) as int;
        let r = ravel_from(m, s, d + 1);
        if d + 1 == s.len() {
            assert(s.skip(d + 1).len() == 0);
            assert(prod(s.skip(d + 1)) == 1);
        }
        assert(0 <= r < st);
        assert(ravel(m, s) == (p * sd + m[d]) * st + r) by (nonlinear_arith)
            requires ravel(m, s) == p * (sd * st) + (m[d] * st + r);
        lemma_fundamental_div_mod_converse(ravel(m, s), st, p * sd + m[d], r);
        lemma_fundamental_div_mod_converse(p * sd + m[d], sd, p, m[d]);
    }
}

/// Every position inside the array is the position of its unraveled multi-index.
pub proof fn lemma_ravel_unravel(f: int, s: Seq<usize>)
    requires
        0 <= f < prod(s),
    ensures
        in_bounds(unravel(f, s), s),
        ravel(unravel(f, s), s) == f,
{
    let m = unravel(f, s);
    lemma_ravel_unravel_from(f, s, 0);
    assert(s.skip(0) =~= s);
    vstd::arithmetic::div_mod::lemma_small_mod(f as nat, prod(s));
}

/// Helper for `lemma_ravel_unravel`: the coordinates from `d` on rebuild `f % prod(s.skip(d))`.
proof fn lemma_ravel_unravel_from(f: int, s: Seq<usize>, d: int)
    requires
        0 <= f < prod(s),
        0 <= d <= s.len(),
    ensures
        forall|e: int| d <= e < s.len() ==> 0 <= #[trigger] unravel(f, s)[e] < s[e],
        ravel_from(unravel(f, s), s, d) == f % (prod(s.skip(d)) as int),
        d == 0 ==> in_bounds(unravel(f, s), s),
    decreases s.len() - d,
{
    let m = unravel(f, s);
    if d == s.len() {
        assert(s.skip(d).len() == 0);
        assert(prod(s.skip(d)) == 1);
    } else {
        lemma_ravel_unravel_from(f, s, d + 1);
        lemma_stride_step(s, d);
        let st = stride(s, d) as int;
        let sd = s[d] as int;
        assert(s.skip(d) =~= s.skip(d));
        lemma_prod_split(s, d);
        assert(prod(s) == prod(s.take(d)) * (sd * st));
        assert(sd > 0 && st > 0) by {
            if sd == 0 || st == 0 {
                assert(prod(s.take(d)) * (sd * st) == 0) by (nonlinear_arith) requires sd == 0 || st == 0;
            }
        }
        if d + 1 == s.len() {
            assert(s.skip(d + 1).len() == 0);
            assert(prod(s.skip(d + 1)) == 1);
        }
        // f % (sd*st) == ((f / st) % sd) * st + f % st
        lemma_fundamental_div_mod(f, st);
        lemma_mod_bound(f, st);
        lemma_fundamental_div_mod(f / st, sd);
        lemma_mod_bound(f / st, sd);
        let q = f / st;
        let c = q % sd;
        let r = f % st;
        assert(m[d] == c);
        assert(f == (sd * st) * (q / sd) + (c * st + r)) by (nonlinear_arith)
            requires f == st * q + r, q == sd * (q / sd) + c;
        assert(0 <= c * st + r < sd * st) by (nonlinear_arith)
            requires 0 <= c < sd, 0 <= r < st;
        lemma_fundamental_div_mod_converse(f, sd * st, q / sd, c * st + r);
        assert forall|e: int| d <= e < s.len() implies 0 <= #[trigger] unravel(f, s)[e] < s[e] by {
            if e == d {
                assert(0 <= c < sd);
            }
        }
    }
}

/// Strides of a C-order array: `strides[d]` is the product of the dimensions after `d`.
pub fn compute_strides(shape: &Vec<usize>) -> (r: Vec<usize>)
    requires
        dims_fit(shape@),
    ensures
        r@.len() == shape@.len(),
        forall|d: int| 0 <= d < shape@.len() ==> #[trigger] r@[d] == stride(shape@, d),
{
    let n = shape.len();
    let mut strides: Vec<usize> = Vec::new();
    let mut i: usize = 0;
    while i < n
        invariant
            0 <= i <= n,
            n == shape@.len(),
            strides@.len() == i,
            forall|j: int| 0 <= j < i ==> strides@[j] == 1,
        decreases n - i,
    {
        strides.push(1);
        i = i + 1;
    }
    if n > 1 {
        let mut i: usize = n - 1;
        while i > 0
            invariant
                0 <= i <= n - 1,
                n == shape@.len(),
                n > 1,
                dims_fit(shape@),
                strides@.len() == n,
                forall|j: int| i <= j < n ==> #[trigger] strides@[j] == stride(shape@, j),
                forall|j: int| 0 <= j < i ==> strides@[j] == 1,
            decreases i,
        {
            proof {
                lemma_stride_step(shape@, i as int);
                if i as int == n - 1 {
                    assert(shape@.skip(n as int).len() == 0);
                    assert(prod(shape@.skip(n as int)) == 1);
                }
                assert(shape@.subrange(i as int, n as int) =~= shape@.skip(i as int));
                assert(prod(shape@.subrange(i as int, n as int)) <= usize::MAX);
                assert(stride(shape@, i as int - 1) == shape@[i as int] * stride(shape@, i as int));
                assert(strides@[i as int] == stride(shape@, i as int));
                assert(strides@[i as int] * shape@[i as int] == shape@[i as int] * stride(shape@, i as int))
                    by (nonlinear_arith) requires strides@[i as int] == stride(shape@, i as int);
            }
            let v = strides[i] * shape[i];
            strides.set(i - 1, v);
            assert(strides@[i as int - 1] == stride(shape@, i as int - 1));
            i = i - 1;
        }
    }
    proof {
        if n == 1 {
            assert(shape@.skip(1).len() == 0);
            assert(prod(shape@.skip(1)) == 1);
        }
    }
    strides
}

/// Multi-index (C order) of the element at flat position `flat_idx`.
pub fn flat_to_multi(flat_idx: usize, shape: &Vec<usize>) -> (r: Vec<usize>)
    requires
        forall|d: int| 0 <= d < shape@.len() ==> #[trigger] shape@[d] > 0,
    ensures
        r@.len() == shape@.len(),
        forall|d: int| 0 <= d < shape@.len() ==> #[trigger] r@[d] as int == unravel_coord(flat_idx as int, shape@, d),
{
    let ndim = shape.len();
    let mut multi: Vec<usize> = Vec::new();
    let mut i: usize = 0;
    while i < ndim
        invariant
            0 <= i <= ndim,
            multi@.len() == i,
        decreases ndim - i,
    {
        multi.push(0);
        i = i + 1;
    }
    let mut remaining = flat_idx;
    let mut dim = ndim;
    proof {
        assert(shape@.skip(ndim as int).len() == 0);
        assert(prod(shape@.skip(ndim as int)) == 1);
    }
    while dim > 0
        invariant
            0 <= dim <= ndim,
            ndim == shape@.len(),
            multi@.len() == ndim,
            forall|d: int| 0 <= d < shape@.len() ==> #[trigger] shape@[d] > 0,
            remaining as int == (flat_idx as int) / (prod(shape@.skip(dim as int)) as int),
            forall|d: int| dim <= d < ndim ==> #[trigger] multi@[d] as int == unravel_coord(flat_idx as int, shape@, d),
        decreases dim,
    {
        let d = dim - 1;
        proof {
            lemma_stride_step(shape@, d as int);
            assert(shape@.skip(d as int + 1) =~= shape@.skip(dim as int));
            crate::shape::lemma_prod_pos(shape@.skip(dim as int));
            lemma_div_denominator(flat_idx as int, stride(shape@, d as int) as int, shape@[d as int] as int);
            assert((shape@[d as int] as int) * (stride(shape@, d as int) as int)
                == (stride(shape@, d as int) as int) * (shape@[d as int] as int)) by (nonlinear_arith);
        }
        multi.set(d, remaining % shape[d]);
        remaining = remaining / shape[d];
        dim = d;
    }
    multi
}

} // verus!

use vstd::prelude::*;
use vstd::arithmetic::mul::lemma_mul_is_associative;

verus! {

/// Number of elements of an array whose dimensions are `s` (empty product is 1).
pub open spec fn prod(s: Seq<usize>) -> nat
    decreases s.len(),
{
    if s.len() == 0 {
        1
    } else {
        prod(s.drop_last()) * (s.last() as nat)
    }
}

/// Every contiguous run of dimensions has a product that fits in `usize`:
/// the machine limit under which sizes and strides of the array can be computed.
pub open spec fn dims_fit(s: Seq<usize>) -> bool {
    forall|i: int, j: int| 0 <= i <= j <= s.len() ==> #[trigger] prod(s.subrange(i, j)) <= usize::MAX
}

/// Product of the dimensions before `ax`.
pub open spec fn pre_of(s: Seq<usize>, ax: int) -> nat {
    prod(s.take(ax))
}

/// Product of the dimensions after `ax` (the C-order stride of axis `ax`).
pub open spec fn post_of(s: Seq<usize>, ax: int) -> nat {
    prod(s.skip(ax + 1))
}

/// The product splits at any position.
pub proof fn lemma_prod_split(s: Seq<usize>, k: int)
    requires
        0 <= k <= s.len(),
    ensures
        prod(s) == prod(s.take(k)) * prod(s.skip(k)),
    decreases s.len(),
{
    if k == s.len() {
        assert(s.take(k) =~= s);
        assert(s.skip(k).len() == 0);
        assert(prod(s.skip(k)) == 1);
    } else {
        let dl = s.drop_last();
        lemma_prod_split(dl, k);
        assert(dl.take(k) =~= s.take(k));
        assert(s.skip(k).drop_last() =~= dl.skip(k));
        assert(s.skip(k).last() == s.last());
        assert(prod(s.skip(k)) == prod(dl.skip(k)) * (s.last() as nat));
        assert(prod(s) == prod(dl) * (s.last() as nat));
        lemma_mul_is_associative(prod(s.take(k)) as int, prod(dl.skip(k)) as int, s.last() as int);
    }
}

/// A sequence with one element has that element as its product.
pub proof fn lemma_prod_single(s: Seq<usize>)
    requires
        s.len() == 1,
    ensures
        prod(s) == s[0] as nat,
{
    assert(s.drop_last().len() == 0);
    assert(prod(s.drop_last()) == 1);
    assert(s.last() == s[0]);
    assert(prod(s) == prod(s.drop_last()) * (s.last() as nat));
    assert(1 * (s[0] as nat) == s[0] as nat);
}

/// The product of the dimensions is `pre * n * post` around any axis.
pub proof fn lemma_prod_axis(s: Seq<usize>, ax: int)
    requires
        0 <= ax < s.len(),
    ensures
        prod(s) == pre_of(s, ax) * (s[ax] as nat) * post_of(s, ax),
        prod(s.skip(ax)) == (s[ax] as nat) * post_of(s, ax),
{
    lemma_prod_split(s, ax);
    let t = s.skip(ax);
    lemma_prod_split(t, 1);
    lemma_prod_single(t.take(1));
    assert(t.skip(1) =~= s.skip(ax + 1));
    lemma_mul_is_associative(pre_of(s, ax) as int, s[ax] as int, post_of(s, ax) as int);
}

/// Products of subranges of a fitting shape fit, in particular pre, n and post.
pub proof fn lemma_dims_fit_axis(s: Seq<usize>, ax: int)
    requires
        0 <= ax < s.len(),
        dims_fit(s),
    ensures
        pre_of(s, ax) <= usize::MAX,
        post_of(s, ax) <= usize::MAX,
        prod(s) <= usize::MAX,
{
    assert(s.subrange(0, ax) =~= s.take(ax));
    assert(s.subrange(ax + 1, s.len() as int) =~= s.skip(ax + 1));
    assert(s.subrange(0, s.len() as int) =~= s);
    assert(prod(s.subrange(0, ax)) <= usize::MAX);
    assert(prod(s.subrange(ax + 1, s.len() as int)) <= usize::MAX);
    assert(prod(s.subrange(0, s.len() as int)) <= usize::MAX);
}

/// A zero dimension makes the product zero.
pub proof fn lemma_prod_zero(s: Seq<usize>, i: int)
    requires
        0 <= i < s.len(),
        s[i] == 0,
    ensures
        prod(s) == 0,
{
    lemma_prod_axis(s, i);
    assert(pre_of(s, i) * 0 * post_of(s, i) == 0) by (nonlinear_arith);
}

/// With no zero dimension, the product is at least one.
pub proof fn lemma_prod_pos(s: Seq<usize>)
    requires
        forall|j: int| 0 <= j < s.len() ==> s[j] >= 1,
    ensures
        prod(s) >= 1,
    decreases s.len(),
{
    if s.len() > 0 {
        lemma_prod_pos(s.drop_last());
        let a = prod(s.drop_last()) as int;
        let b = s.last() as int;
        assert(a * b >= 1) by (nonlinear_arith) requires a >= 1, b >= 1;
    }
}

/// With no zero dimension, a prefix has a product no larger than the whole.
pub proof fn lemma_prod_prefix_le(s: Seq<usize>, i: int)
    requires
        0 <= i <= s.len(),
        forall|j: int| 0 <= j < s.len() ==> s[j] >= 1,
    ensures
        prod(s.take(i)) <= prod(s),
{
    lemma_prod_split(s, i);
    lemma_prod_pos(s.skip(i));
    let a = prod(s.take(i)) as int;
    let b = prod(s.skip(i)) as int;
    assert(a <= a * b) by (nonlinear_arith) requires a >= 0, b >= 1;
}

/// The number of elements of a shape when it fits in `usize`.
pub fn checked_size(s: &Vec<usize>) -> (r: Option<usize>)
    ensures
        r == (if prod(s@) <= usize::MAX { Some(prod(s@) as usize) } else { None::<usize> }),
{
    let mut z: usize = 0;
    while z < s.len()
        invariant
            0 <= z <= s@.len(),
            forall|j: int| 0 <= j < z ==> s@[j] >= 1,
        decreases s@.len() - z,
    {
        if s[z] == 0 {
            proof { lemma_prod_zero(s@, z as int); }
            return Some(0);
        }
        z = z + 1;
    }
    let mut acc: usize = 1;
    let mut i: usize = 0;
    while i < s.len()
        invariant
            0 <= i <= s@.len(),
            forall|j: int| 0 <= j < s@.len() ==> s@[j] >= 1,
            acc == prod(s@.take(i as int)),
        decreases s@.len() - i,
    {
        proof {
            assert(s@.take(i as int + 1).drop_last() =~= s@.take(i as int));
            lemma_prod_prefix_le(s@, i as int + 1);
        }
        match acc.checked_mul(s[i]) {
            Some(v) => { acc = v; },
            None => { return None; },
        }
        i = i + 1;
    }
    assert(s@.take(s@.len() as int) =~= s@);
    Some(acc)
}

/// Product of the dimensions `s[lo..hi]`, computed from the front.
pub fn sub_prod(s: &Vec<usize>, lo: usize, hi: usize) -> (r: usize)
    requires
        lo <= hi <= s.len(),
        dims_fit(s@),
    ensures
        r == prod(s@.subrange(lo as int, hi as int)),
{
    let mut acc: usize = 1;
    let mut i = lo;
    while i < hi
        invariant
            lo <= i <= hi <= s.len(),
            dims_fit(s@),
            acc == prod(s@.subrange(lo as int, i as int)),
        decreases hi - i,
    {
        let ghost t = s@.subrange(lo as int, i as int + 1);
        assert(t.drop_last() =~= s@.subrange(lo as int, i as int));
        assert(prod(t) <= usize::MAX);
        acc = acc * s[i];
        i = i + 1;
    }
    acc
}

/// Total number of elements of the shape.
pub fn shape_size(s: &Vec<usize>) -> (r: usize)
    requires
        dims_fit(s@),
    ensures
        r == prod(s@),
{
    let r = sub_prod(s, 0, s.len());
    assert(s@.subrange(0, s@.len() as int) =~= s@);
    r
}

} // verus!

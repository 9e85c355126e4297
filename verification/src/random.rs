use vstd::prelude::*;
use rand::rngs::StdRng;
use rand::SeedableRng;
use rand_distr::Distribution;
use crate::array::{ArrayError, NdArray};
use crate::layout::picked;

verus! {

/// The seeded pseudo-random generator of `rand`.
#[verifier::external_type_specification]
#[verifier::external_body]
pub struct ExStdRng(StdRng);

/// Calls `StdRng::seed_from_u64`; nothing is claimed of the generator's state.
#[verifier::external_body]
fn seed_from_u64(seed: u64) -> StdRng {
    StdRng::seed_from_u64(seed)
}

/// Calls `rand::random::<u64>()`; any value may come back.
#[verifier::external_body]
fn random_u64() -> u64 {
    rand::random::<u64>()
}

/// Builds `rand_distr::Uniform::new(low, high)` and samples it once. For `low < high` the
/// distribution is built (it refuses only an empty range) and its sample lies in `low..high`;
/// which value comes is left open.
#[verifier::external_body]
fn uniform_usize(rng: &mut StdRng, low: usize, high: usize) -> (r: usize)
    requires
        low < high,
    ensures
        low <= r < high,
{
    rand_distr::Uniform::new(low, high).unwrap().sample(rng)
}

/// Builds `rand_distr::Uniform::new(low, high)` over `i64` and samples it once. For
/// `low < high` the distribution is built and its sample lies in `low..high`; which value comes
/// is left open.
#[verifier::external_body]
fn uniform_i64(rng: &mut StdRng, low: i64, high: i64) -> (r: i64)
    requires
        low < high,
    ensures
        low <= r < high,
{
    rand_distr::Uniform::new(low, high).unwrap().sample(rng)
}

/// A generator seeded with the given seed, or with a random one.
pub fn new_rng(seed: Option<u64>) -> StdRng {
    match seed {
        Some(s) => seed_from_u64(s),
        None => seed_from_u64(random_u64()),
    }
}

/// `p` lists every position below `n` exactly once.
pub open spec fn is_permutation(p: Seq<usize>, n: int) -> bool {
    &&& p.len() == n
    &&& forall|i: int| 0 <= i < n ==> #[trigger] p[i] < n
    &&& forall|i: int, j: int| 0 <= i < j < n ==> p[i] != p[j]
}

/// A random ordering of `0..n` by the Fisher–Yates walk from the last position down, each
/// position swapped with one drawn uniformly at or before it.
pub fn shuffled_indices(rng: &mut StdRng, n: usize) -> (r: Vec<usize>)
    ensures
        is_permutation(r@, n as int),
{
    let mut idx: Vec<usize> = Vec::new();
    let mut i: usize = 0;
    while i < n
        invariant
            0 <= i <= n,
            idx@.len() == i,
            forall|k: int| 0 <= k < i ==> #[trigger] idx@[k] == k,
        decreases n - i,
    {
        idx.push(i);
        i = i + 1;
    }
    let mut k: usize = n;
    while k > 1
        invariant
            0 <= k <= n,
            is_permutation(idx@, n as int),
        decreases k,
    {
        let i = k - 1;
        let j = uniform_usize(rng, 0, i + 1);
        let a = idx[i];
        let b = idx[j];
        idx.set(i, b);
        idx.set(j, a);
        k = k - 1;
    }
    idx
}

/// The elements of a one-dimensional sequence in a random order.
pub fn permutation<T: Copy>(rng: &mut StdRng, a: &NdArray<T>) -> (r: NdArray<T>)
    requires
        a.wf(),
    ensures
        r.shape@ == a.shape@,
        r.wf(),
        exists|p: Seq<usize>| is_permutation(p, a.data@.len() as int) && r.data@ == picked(a.data@, p),
{
    let p = shuffled_indices(rng, a.data.len());
    let mut out: Vec<T> = Vec::new();
    let mut k: usize = 0;
    while k < p.len()
        invariant
            0 <= k <= p@.len(),
            is_permutation(p@, a.data@.len() as int),
            out@ =~= picked(a.data@, p@).take(k as int),
        decreases p@.len() - k,
    {
        out.push(a.data[p[k]]);
        k = k + 1;
    }
    assert(picked(a.data@, p@).take(p@.len() as int) =~= picked(a.data@, p@));
    NdArray { data: out, shape: crate::layout::copy_vec(&a.shape) }
}

/// Shuffles a one-dimensional array in place by the Fisher–Yates walk; an array of another
/// dimension is refused.
pub fn shuffle<T: Copy>(rng: &mut StdRng, a: &mut NdArray<T>) -> (r: Result<(), ArrayError>)
    requires
        old(a).wf(),
    ensures
        final(a).shape@ == old(a).shape@,
        r is Err <==> old(a).shape@.len() != 1,
        r is Err ==> r == Err::<(), ArrayError>(ArrayError::InvalidDimension) && final(a).data@ == old(a).data@,
        r is Ok ==> exists|p: Seq<usize>| is_permutation(p, old(a).data@.len() as int)
            && final(a).data@ == picked(old(a).data@, p),
{
    if a.shape.len() != 1 {
        return Err(ArrayError::InvalidDimension);
    }
    let n = a.data.len();
    let ghost orig = a.data@;
    let ghost mut p: Seq<usize> = Seq::new(n as nat, |i: int| i as usize);
    assert(a.data@ =~= picked(orig, p));
    let mut k: usize = n;
    while k > 1
        invariant
            0 <= k <= n,
            n == orig.len(),
            a.data@.len() == n,
            a.shape@ == old(a).shape@,
            orig == old(a).data@,
            is_permutation(p, n as int),
            a.data@ == picked(orig, p),
        decreases k,
    {
        let i = k - 1;
        let j = uniform_usize(rng, 0, i + 1);
        let x = a.data[i];
        let y = a.data[j];
        a.data.set(i, y);
        a.data.set(j, x);
        proof {
            let pi = p[i as int];
            let pj = p[j as int];
            p = p.update(i as int, pj).update(j as int, pi);
            assert(a.data@ =~= picked(orig, p));
        }
        k = k - 1;
    }
    Ok(())
}

/// Draws `size` elements (one when no size is given) from a non-empty sequence: each drawn
/// independently and uniformly with replacement, or, without replacement, the first elements
/// of a random ordering (so no position is drawn twice). An empty sequence, and a sample
/// larger than the sequence without replacement, are refused.
pub fn choice<T: Copy>(rng: &mut StdRng, vals: &Vec<T>, size: Option<usize>, replace: bool) -> (r: Result<Vec<T>, ArrayError>)
    ensures
        r == Err::<Vec<T>, ArrayError>(ArrayError::EmptyInput) <==> vals@.len() == 0,
        vals@.len() > 0 ==> ((r == Err::<Vec<T>, ArrayError>(ArrayError::InvalidArgument)) <==>
            (!replace && (match size { Some(n) => n as int, None => 1int }) > vals@.len())),
        r matches Ok(out) ==> {
            let n = match size { Some(n) => n as int, None => 1int };
            &&& out@.len() == n
            &&& replace ==> exists|idx: Seq<usize>| idx.len() == n
                && (forall|k: int| 0 <= k < n ==> #[trigger] idx[k] < vals@.len()) && out@ == picked(vals@, idx)
            &&& !replace ==> exists|p: Seq<usize>| is_permutation(p, vals@.len() as int)
                && out@ == picked(vals@, p.take(n))
        },
{
    let len = vals.len();
    if len == 0 {
        return Err(ArrayError::EmptyInput);
    }
    let n: usize = match size {
        Some(s) => s,
        None => 1,
    };
    if !replace && n > len {
        return Err(ArrayError::InvalidArgument);
    }
    let mut out: Vec<T> = Vec::new();
    if replace {
        let ghost mut idx: Seq<usize> = Seq::empty();
        let mut k: usize = 0;
        while k < n
            invariant
                0 <= k <= n,
                len == vals@.len(),
                len > 0,
                idx.len() == k,
                forall|q: int| 0 <= q < k ==> #[trigger] idx[q] < len,
                out@ == picked(vals@, idx),
            decreases n - k,
        {
            let j = uniform_usize(rng, 0, len);
            out.push(vals[j]);
            proof {
                idx = idx.push(j);
                assert(out@ =~= picked(vals@, idx));
            }
            k = k + 1;
        }
        return Ok(out);
    }
    let p = shuffled_indices(rng, len);
    let mut k: usize = 0;
    while k < n
        invariant
            0 <= k <= n,
            n <= len,
            len == vals@.len(),
            is_permutation(p@, len as int),
            out@ =~= picked(vals@, p@.take(n as int)).take(k as int),
        decreases n - k,
    {
        out.push(vals[p[k]]);
        k = k + 1;
    }
    assert(picked(vals@, p@.take(n as int)).take(n as int) =~= picked(vals@, p@.take(n as int)));
    Ok(out)
}

/// `count` integers drawn uniformly from `low..high`; an empty range is refused.
pub fn randint_values(rng: &mut StdRng, low: i64, high: i64, count: usize) -> (r: Result<Vec<i64>, ArrayError>)
    ensures
        r is Err <==> low >= high,
        r is Err ==> r == Err::<Vec<i64>, ArrayError>(ArrayError::InvalidArgument),
        r matches Ok(v) ==> v@.len() == count && forall|k: int| 0 <= k < count ==> low <= #[trigger] v@[k] < high,
{
    if low >= high {
        return Err(ArrayError::InvalidArgument);
    }
    let mut out: Vec<i64> = Vec::new();
    let mut k: usize = 0;
    while k < count
        invariant
            0 <= k <= count,
            low < high,
            out@.len() == k,
            forall|q: int| 0 <= q < k ==> low <= #[trigger] out@[q] < high,
        decreases count - k,
    {
        out.push(uniform_i64(rng, low, high));
        k = k + 1;
    }
    Ok(out)
}

/// Bounds of `integers`: with one bound, from zero up to it; the upper bound is excluded
/// unless `endpoint` is set.
pub open spec fn integer_range(low: i64, high: Option<i64>, endpoint: bool) -> (int, int) {
    let hi: int = match high { Some(h) => h as int, None => low as int };
    let lo: int = match high { Some(_) => low as int, None => 0 };
    (lo, if endpoint { hi + 1 } else { hi })
}

/// `count` integers drawn uniformly from the range `integer_range`; an empty range is refused.
pub fn integers(rng: &mut StdRng, low: i64, high: Option<i64>, count: usize, endpoint: bool) -> (r: Result<Vec<i64>, ArrayError>)
    requires
        endpoint ==> (match high { Some(h) => h, None => low }) < i64::MAX,
    ensures
        r is Err <==> integer_range(low, high, endpoint).1 <= integer_range(low, high, endpoint).0,
        r is Err ==> r == Err::<Vec<i64>, ArrayError>(ArrayError::InvalidArgument),
        r matches Ok(v) ==> v@.len() == count && forall|k: int| 0 <= k < count ==>
            integer_range(low, high, endpoint).0 <= #[trigger] v@[k] < integer_range(low, high, endpoint).1,
{
    let hi: i64 = match high {
        Some(h) => h,
        None => low,
    };
    let lo: i64 = match high {
        Some(_) => low,
        None => 0,
    };
    let top: i64 = if endpoint { hi + 1 } else { hi };
    if top <= lo {
        return Err(ArrayError::InvalidArgument);
    }
    randint_values(rng, lo, top, count)
}

} // verus!

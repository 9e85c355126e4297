use vstd::prelude::*;
use crate::array::{ArrayError, NdArray};
use crate::layout::copy_vec;
use crate::permute::{ints, ravel_exec};
use crate::shape::{dims_fit, lemma_prod_zero, prod, shape_size};
use crate::strides::{compute_strides, flat_to_multi, in_bounds, lemma_ravel_bound, lemma_ravel_unravel, lemma_unravel_ravel, ravel, unravel};

verus! {

/// The array's dimensions with ones in front up to `n` dimensions.
pub open spec fn padded_front(s: Seq<usize>, n: int) -> Seq<usize> {
    if n > s.len() { Seq::new((n - s.len()) as nat, |i: int| 1usize) + s } else { s }
}

/// Repetitions of axis `d`: the given count when it is more than one, else one.
pub open spec fn tile_rep(reps: Seq<usize>, d: int) -> int {
    if d < reps.len() && reps[d] > 1 { reps[d] as int } else { 1 }
}

/// Shape of the tiled array.
pub open spec fn tile_shape(s: Seq<usize>, reps: Seq<usize>) -> Seq<usize> {
    let p = padded_front(s, reps.len() as int);
    Seq::new(p.len(), |d: int| (p[d] * tile_rep(reps, d)) as usize)
}

/// Source coordinates of tiled element `m`: each coordinate reduced modulo its dimension.
pub open spec fn tile_source(m: Seq<int>, p: Seq<usize>) -> Seq<int> {
    Seq::new(p.len(), |d: int| m[d] % (p[d] as int))
}

/// A padded shape has the product of the shape.
proof fn lemma_prod_padded_front(s: Seq<usize>, n: int)
    ensures
        prod(padded_front(s, n)) == prod(s),
        dims_fit(s) ==> dims_fit(padded_front(s, n)),
{
    if n > s.len() {
        let ones = Seq::new((n - s.len()) as nat, |i: int| 1usize);
        let p = ones + s;
        crate::shape::lemma_prod_split(p, ones.len() as int);
        assert(p.take(ones.len() as int) =~= ones);
        assert(p.skip(ones.len() as int) =~= s);
        lemma_prod_ones(ones);
        if dims_fit(s) {
            assert forall|i: int, j: int| 0 <= i <= j <= p.len() implies #[trigger] prod(p.subrange(i, j)) <= usize::MAX by {
                let k = ones.len() as int;
                let t = p.subrange(i, j);
                if j <= k {
                    assert(t =~= ones.subrange(i, j));
                    lemma_prod_ones(ones.subrange(i, j));
                } else if i >= k {
                    assert(t =~= s.subrange(i - k, j - k));
                } else {
                    crate::shape::lemma_prod_split(t, k - i);
                    assert(t.take(k - i) =~= ones.subrange(i, k));
                    lemma_prod_ones(ones.subrange(i, k));
                    assert(t.skip(k - i) =~= s.subrange(0, j - k));
                    assert(prod(s.subrange(0, j - k)) <= usize::MAX);
                }
            }
        }
    }
}

/// Dimensions of one multiply to one.
proof fn lemma_prod_ones(s: Seq<usize>)
    requires
        forall|i: int| 0 <= i < s.len() ==> s[i] == 1,
    ensures
        prod(s) == 1,
    decreases s.len(),
{
    if s.len() > 0 {
        lemma_prod_ones(s.drop_last());
    }
}

/// Repeats an array along its axes: with more repetitions than dimensions the array first
/// gets leading dimensions of one; axis `d` is then repeated `reps[d]` times when that count is
/// more than one (a count of zero or one leaves it as it is). Element `m` of the result is
/// element `m[d] % p[d]` along each axis of the padded array.
pub fn tile<T: Copy>(a: &NdArray<T>, reps: &Vec<usize>) -> (r: NdArray<T>)
    requires
        a.wf(),
        dims_fit(a.shape@),
        dims_fit(tile_shape(a.shape@, reps@)),
        forall|d: int| 0 <= d < padded_front(a.shape@, reps@.len() as int).len() ==>
            padded_front(a.shape@, reps@.len() as int)[d] * tile_rep(reps@, d) <= usize::MAX,
    ensures
        r.wf(),
        r.shape@ == tile_shape(a.shape@, reps@),
        forall|m: Seq<int>| in_bounds(m, r.shape@) ==> #[trigger] r.data@[ravel(m, r.shape@)]
            == a.data@[ravel(tile_source(m, padded_front(a.shape@, reps@.len() as int)), padded_front(a.shape@, reps@.len() as int))],
{
    let nd = a.shape.len();
    let ghost p = padded_front(a.shape@, reps@.len() as int);
    let mut ps: Vec<usize> = Vec::new();
    if reps.len() > nd {
        let extra = reps.len() - nd;
        let mut i: usize = 0;
        while i < extra
            invariant
                0 <= i <= extra,
                ps@ =~= Seq::new(i as nat, |j: int| 1usize),
            decreases extra - i,
        {
            ps.push(1);
            i = i + 1;
        }
    }
    let mut i: usize = 0;
    let ghost base = ps@;
    while i < nd
        invariant
            0 <= i <= nd,
            nd == a.shape@.len(),
            ps@ =~= base + a.shape@.take(i as int),
        decreases nd - i,
    {
        ps.push(a.shape[i]);
        i = i + 1;
    }
    assert(ps@ =~= p);
    let mut out_shape: Vec<usize> = Vec::new();
    let mut d: usize = 0;
    while d < ps.len()
        invariant
            0 <= d <= ps@.len(),
            ps@ == p,
            p == padded_front(a.shape@, reps@.len() as int),
            forall|d2: int| 0 <= d2 < p.len() ==> p[d2] * tile_rep(reps@, d2) <= usize::MAX,
            out_shape@ =~= tile_shape(a.shape@, reps@).take(d as int),
        decreases ps@.len() - d,
    {
        let rep: usize = if d < reps.len() && reps[d] > 1 { reps[d] } else { 1 };
        assert(rep as int == tile_rep(reps@, d as int));
        let v = ps[d] * rep;
        assert(v == tile_shape(a.shape@, reps@)[d as int]);
        out_shape.push(v);
        d = d + 1;
    }
    assert(out_shape@ =~= tile_shape(a.shape@, reps@));
    proof {
        lemma_prod_padded_front(a.shape@, reps@.len() as int);
    }
    let ghost os = out_shape@;
    let total = shape_size(&out_shape);
    let strides = compute_strides(&ps);
    let mut data: Vec<T> = Vec::new();
    let mut lin: usize = 0;
    while lin < total
        invariant
            0 <= lin <= total,
            total == prod(os),
            os == out_shape@,
            os == tile_shape(a.shape@, reps@),
            p == padded_front(a.shape@, reps@.len() as int),
            ps@ == p,
            p.len() == os.len(),
            dims_fit(p),
            prod(p) == a.data@.len(),
            strides@.len() == p.len(),
            forall|e: int| 0 <= e < p.len() ==> #[trigger] strides@[e] == crate::strides::stride(p, e),
            data@.len() == lin,
            forall|l: int| 0 <= l < lin ==> #[trigger] data@[l] == a.data@[ravel(tile_source(unravel(l, os), p), p)],
        decreases total - lin,
    {
        proof {
            assert forall|j: int| 0 <= j < os.len() implies #[trigger] os[j] > 0 by {
                if os[j] == 0 {
                    lemma_prod_zero(os, j);
                }
            }
            lemma_ravel_unravel(lin as int, os);
        }
        let oc = flat_to_multi(lin, &out_shape);
        let mut sc: Vec<usize> = Vec::new();
        let mut d: usize = 0;
        while d < ps.len()
            invariant
                0 <= d <= ps@.len(),
                ps@ == p,
                p.len() == os.len(),
                oc@.len() == os.len(),
                forall|e: int| 0 <= e < os.len() ==> #[trigger] os[e] > 0,
                forall|e: int| 0 <= e < os.len() ==> #[trigger] os[e] == (p[e] * tile_rep(reps@, e)) as usize,
                forall|e: int| 0 <= e < os.len() ==> #[trigger] oc@[e] as int == crate::strides::unravel_coord(lin as int, os, e),
                sc@.len() == d,
                forall|e: int| 0 <= e < d ==> #[trigger] sc@[e] as int == tile_source(unravel(lin as int, os), p)[e],
                forall|e: int| 0 <= e < d ==> #[trigger] sc@[e] < p[e],
            decreases ps@.len() - d,
        {
            proof {
                if p[d as int] == 0 {
                    assert(os[d as int] == 0);
                }
            }
            sc.push(oc[d] % ps[d]);
            d = d + 1;
        }
        proof {
            assert(ints(sc@) =~= tile_source(unravel(lin as int, os), p));
        }
        let k = ravel_exec(&sc, &ps, &strides);
        proof {
            lemma_ravel_bound(ints(sc@), p);
            if p.len() == 0 {
                assert(prod(p) == 1);
            }
        }
        data.push(a.data[k]);
        lin = lin + 1;
    }
    proof {
        assert forall|m: Seq<int>| in_bounds(m, os) implies
            #[trigger] data@[ravel(m, os)] == a.data@[ravel(tile_source(m, p), p)] by {
            lemma_ravel_bound(m, os);
            if os.len() == 0 {
                assert(prod(os) == 1);
            }
            lemma_unravel_ravel(m, os);
        }
    }
    NdArray { data, shape: out_shape }
}

/// Number of quarter turns, reduced into `0..4`.
pub open spec fn quarter_turns(k: int) -> int {
    k % 4
}

/// Shape after the turn: the two axes exchange their lengths for an odd number of turns.
pub open spec fn rot90_shape(s: Seq<usize>, k: int, a1: int, a2: int) -> Seq<usize> {
    if quarter_turns(k) % 2 == 1 { s.update(a1, s[a2]).update(a2, s[a1]) } else { s }
}

/// Source coordinates of element `m` of an array turned `k` quarter turns in the plane of
/// axes `a1` and `a2`; one turn exchanges the two axes and then reverses axis `a2`.
pub open spec fn rot90_source(m: Seq<int>, s: Seq<usize>, k: int, a1: int, a2: int) -> Seq<int> {
    let q = quarter_turns(k);
    if q == 0 {
        m
    } else if q == 1 {
        m.update(a1, s[a1] - 1 - m[a2]).update(a2, m[a1])
    } else if q == 2 {
        m.update(a1, s[a1] - 1 - m[a1]).update(a2, s[a2] - 1 - m[a2])
    } else {
        m.update(a1, m[a2]).update(a2, s[a2] - 1 - m[a1])
    }
}

/// `k` reduced into `0..4`.
fn quarter_turns_exec(k: isize) -> (r: usize)
    ensures
        r as int == quarter_turns(k as int),
        r < 4,
{
    if k >= 0 {
        let r = (k as usize) % 4;
        r
    } else {
        let m: u64 = (0i128 - k as i128) as u64;
        let t = m % 4;
        proof {
            let q = (m as int) / 4;
            vstd::arithmetic::div_mod::lemma_fundamental_div_mod(m as int, 4);
            if t == 0 {
                vstd::arithmetic::div_mod::lemma_fundamental_div_mod_converse(k as int, 4, -q, 0);
            } else {
                vstd::arithmetic::div_mod::lemma_fundamental_div_mod_converse(k as int, 4, -q - 1, 4 - t as int);
            }
        }
        if t == 0 { 0 } else { (4 - t) as usize }
    }
}

/// Turns an array by `k` quarter turns in the plane of two axes: element `m` of the result is
/// source element `rot90_source(m)`. Fewer than two dimensions, an axis out of range, and equal
/// axes are refused in that order.
pub fn rot90<T: Copy>(a: &NdArray<T>, k: isize, axis1: usize, axis2: usize) -> (r: Result<NdArray<T>, ArrayError>)
    requires
        a.wf(),
        dims_fit(a.shape@),
    ensures
        (r == Err::<NdArray<T>, ArrayError>(ArrayError::TooFewDimensions)) <==> a.shape@.len() < 2,
        a.shape@.len() >= 2 ==> ((r == Err::<NdArray<T>, ArrayError>(ArrayError::AxisOutOfBounds))
            <==> (axis1 >= a.shape@.len() || axis2 >= a.shape@.len())),
        a.shape@.len() >= 2 && axis1 < a.shape@.len() && axis2 < a.shape@.len() ==>
            ((r == Err::<NdArray<T>, ArrayError>(ArrayError::SameAxis)) <==> axis1 == axis2),
        r is Ok <==> a.shape@.len() >= 2 && axis1 < a.shape@.len() && axis2 < a.shape@.len() && axis1 != axis2,
        r matches Ok(out) ==> {
            &&& out.wf()
            &&& out.shape@ == rot90_shape(a.shape@, k as int, axis1 as int, axis2 as int)
            &&& forall|m: Seq<int>| in_bounds(m, out.shape@) ==> #[trigger] out.data@[ravel(m, out.shape@)]
                == a.data@[ravel(rot90_source(m, a.shape@, k as int, axis1 as int, axis2 as int), a.shape@)]
        },
{
    let nd = a.shape.len();
    if nd < 2 {
        return Err(ArrayError::TooFewDimensions);
    }
    if axis1 >= nd || axis2 >= nd {
        return Err(ArrayError::AxisOutOfBounds);
    }
    if axis1 == axis2 {
        return Err(ArrayError::SameAxis);
    }
    let q = quarter_turns_exec(k);
    let ghost s = a.shape@;
    let ghost kk = k as int;
    let ghost a1 = axis1 as int;
    let ghost a2 = axis2 as int;
    let mut out_shape = copy_vec(&a.shape);
    if q % 2 == 1 {
        let n1 = a.shape[axis1];
        let n2 = a.shape[axis2];
        out_shape.set(axis1, n2);
        out_shape.set(axis2, n1);
    }
    let ghost os = out_shape@;
    assert(os =~= rot90_shape(s, kk, a1, a2));
    proof {
        assert(prod(os) == prod(s)) by {
            if q % 2 == 1 {
                crate::permute::lemma_prod_permuted(s, crate::permute::swapped_axes(nd as int, a1, a2));
                assert(crate::permute::permuted_shape(s, crate::permute::swapped_axes(nd as int, a1, a2)) =~= os);
            }
        }
    }
    let total = a.data.len();
    let strides = compute_strides(&a.shape);
    let mut data: Vec<T> = Vec::new();
    let mut lin: usize = 0;
    while lin < total
        invariant
            0 <= lin <= total,
            total == prod(os),
            total == a.data@.len(),
            s == a.shape@,
            nd == s.len(),
            os == out_shape@,
            os == rot90_shape(s, kk, a1, a2),
            a1 == axis1 as int,
            a2 == axis2 as int,
            kk == k as int,
            q as int == quarter_turns(kk),
            q < 4,
            axis1 < nd,
            axis2 < nd,
            axis1 != axis2,
            dims_fit(s),
            prod(s) == a.data@.len(),
            strides@.len() == s.len(),
            forall|e: int| 0 <= e < s.len() ==> #[trigger] strides@[e] == crate::strides::stride(s, e),
            data@.len() == lin,
            forall|l: int| 0 <= l < lin ==> #[trigger] data@[l] == a.data@[ravel(rot90_source(unravel(l, os), s, kk, a1, a2), s)],
        decreases total - lin,
    {
        proof {
            assert forall|j: int| 0 <= j < os.len() implies #[trigger] os[j] > 0 by {
                if os[j] == 0 {
                    lemma_prod_zero(os, j);
                }
            }
            lemma_ravel_unravel(lin as int, os);
        }
        let oc = flat_to_multi(lin, &out_shape);
        let c1 = oc[axis1];
        let c2 = oc[axis2];
        let mut sc = copy_vec(&oc);
        proof {
            assert(ints(oc@) =~= unravel(lin as int, os));
            assert(c1 < os[a1] && c2 < os[a2]);
        }
        if q == 1 {
            sc.set(axis1, a.shape[axis1] - 1 - c2);
            sc.set(axis2, c1);
        } else if q == 2 {
            sc.set(axis1, a.shape[axis1] - 1 - c1);
            sc.set(axis2, a.shape[axis2] - 1 - c2);
        } else if q == 3 {
            sc.set(axis1, c2);
            sc.set(axis2, a.shape[axis2] - 1 - c1);
        }
        proof {
            assert(ints(sc@) =~= rot90_source(unravel(lin as int, os), s, kk, a1, a2));
            assert(in_bounds(ints(sc@), s));
        }
        let off = ravel_exec(&sc, &a.shape, &strides);
        proof {
            lemma_ravel_bound(ints(sc@), s);
        }
        data.push(a.data[off]);
        lin = lin + 1;
    }
    proof {
        assert forall|m: Seq<int>| in_bounds(m, os) implies
            #[trigger] data@[ravel(m, os)] == a.data@[ravel(rot90_source(m, s, kk, a1, a2), s)] by {
            lemma_ravel_bound(m, os);
            lemma_unravel_ravel(m, os);
        }
    }
    Ok(NdArray { data, shape: out_shape })
}

/// A copy of the array with a new shape, its flat elements repeated cyclically to fill it.
/// An empty array can only take a shape without elements.
pub fn resize_rs<T: Copy>(a: &NdArray<T>, new_shape: &Vec<usize>) -> (r: Result<NdArray<T>, ArrayError>)
    requires
        a.wf(),
        dims_fit(new_shape@),
    ensures
        r is Err <==> a.data@.len() == 0 && prod(new_shape@) > 0,
        r is Err ==> r == Err::<NdArray<T>, ArrayError>(ArrayError::ShapeMismatch),
        r matches Ok(out) ==> {
            &&& out.wf()
            &&& out.shape@ == new_shape@
            &&& out.data@ == Seq::new(prod(new_shape@), |j: int| a.data@[j % (a.data@.len() as int)])
        },
{
    let size = shape_size(new_shape);
    if a.data.len() == 0 {
        if size > 0 {
            return Err(ArrayError::ShapeMismatch);
        }
        let empty: Vec<T> = Vec::new();
        assert(empty@ =~= Seq::new(prod(new_shape@), |j: int| a.data@[j % (a.data@.len() as int)]));
        return Ok(NdArray { data: empty, shape: copy_vec(new_shape) });
    }
    let mut out = NdArray { data: copy_vec(&a.data), shape: copy_vec(&a.shape) };
    out.resize(new_shape);
    Ok(out)
}

/// Coordinates of flat position `q` walked in column-major (F) order: the first coordinate
/// varies fastest.
pub open spec fn f_unravel(q: int, s: Seq<usize>) -> Seq<int> {
    Seq::new(s.len(), |d: int| (q / (prod(s.take(d)) as int)) % (s[d] as int))
}

/// The elements in one dimension: in C order, or in F order (first coordinate fastest) when
/// `f_order` is set and the array has more than one dimension.
pub fn flatten_full<T: Copy>(a: &NdArray<T>, f_order: bool) -> (r: NdArray<T>)
    requires
        a.wf(),
        dims_fit(a.shape@),
    ensures
        r.wf(),
        r.shape@ == seq![a.data@.len() as usize],
        !(f_order && a.shape@.len() > 1) ==> r.data@ == a.data@,
        f_order && a.shape@.len() > 1 ==> forall|q: int| 0 <= q < a.data@.len() ==>
            #[trigger] r.data@[q] == a.data@[ravel(f_unravel(q, a.shape@), a.shape@)],
{
    let n = a.data.len();
    let mut shape: Vec<usize> = Vec::new();
    shape.push(n);
    proof {
        crate::shape::lemma_prod_single(shape@);
        assert(shape@ =~= seq![a.data@.len() as usize]);
    }
    if !(f_order && a.shape.len() > 1) {
        return NdArray { data: copy_vec(&a.data), shape };
    }
    let nd = a.shape.len();
    let ghost s = a.shape@;
    let strides = compute_strides(&a.shape);
    let mut data: Vec<T> = Vec::new();
    let mut q: usize = 0;
    while q < n
        invariant
            0 <= q <= n,
            n == a.data@.len(),
            n == prod(s),
            s == a.shape@,
            nd == s.len(),
            dims_fit(s),
            strides@.len() == s.len(),
            forall|e: int| 0 <= e < s.len() ==> #[trigger] strides@[e] == crate::strides::stride(s, e),
            data@.len() == q,
            forall|q2: int| 0 <= q2 < q ==> #[trigger] data@[q2] == a.data@[ravel(f_unravel(q2, s), s)],
        decreases n - q,
    {
        proof {
            assert forall|j: int| 0 <= j < s.len() implies #[trigger] s[j] > 0 by {
                if s[j] == 0 {
                    lemma_prod_zero(s, j);
                }
            }
        }
        let mut coords: Vec<usize> = Vec::new();
        let mut rem = q;
        let mut d: usize = 0;
        proof {
            assert(s.take(0).len() == 0);
            assert(prod(s.take(0)) == 1);
            assert((q as int) / 1 == q as int);
        }
        while d < nd
            invariant
                0 <= d <= nd,
                nd == s.len(),
                q < prod(s),
                forall|j: int| 0 <= j < s.len() ==> #[trigger] s[j] > 0,
                s == a.shape@,
                rem as int == (q as int) / (prod(s.take(d as int)) as int),
                prod(s.take(d as int)) > 0,
                coords@.len() == d,
                forall|e: int| 0 <= e < d ==> #[trigger] coords@[e] as int == f_unravel(q as int, s)[e],
                forall|e: int| 0 <= e < d ==> #[trigger] coords@[e] < s[e],
            decreases nd - d,
        {
            let sd = a.shape[d];
            proof {
                assert(s.take(d as int + 1).drop_last() =~= s.take(d as int));
                let p = prod(s.take(d as int)) as int;
                vstd::arithmetic::div_mod::lemma_div_denominator(q as int, p, sd as int);
                assert(p * sd > 0) by (nonlinear_arith) requires p > 0, sd > 0;
                vstd::arithmetic::div_mod::lemma_mod_bound(rem as int, sd as int);
            }
            coords.push(rem % sd);
            rem = rem / sd;
            d = d + 1;
        }
        proof {
            assert(ints(coords@) =~= f_unravel(q as int, s));
        }
        let off = ravel_exec(&coords, &a.shape, &strides);
        proof {
            lemma_ravel_bound(ints(coords@), s);
        }
        data.push(a.data[off]);
        q = q + 1;
    }
    NdArray { data, shape }
}

} // verus!

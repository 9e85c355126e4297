use vstd::prelude::*;
use crate::advanced::{block_covers, reduced_coords};
use crate::array::{ArrayError, NdArray};
use crate::permute::ints;
use crate::shape::{dims_fit, lemma_prod_zero, prod};
use crate::strides::{compute_strides, flat_to_multi, in_bounds, lemma_ravel_bound, lemma_ravel_unravel, lemma_unravel_ravel, ravel, unravel};

verus! {

/// Number of set flags before position `i`.
pub open spec fn count_set(mask: Seq<bool>, i: int) -> int
    decreases i,
{
    if i <= 0 { 0 } else { count_set(mask, i - 1) + if mask[i - 1] { 1int } else { 0int } }
}

proof fn lemma_count_set_bound(mask: Seq<bool>, i: int)
    requires
        0 <= i,
    ensures
        0 <= count_set(mask, i) <= i,
    decreases i,
{
    if i > 0 {
        lemma_count_set_bound(mask, i - 1);
    }
}

/// Writes values in turn, cycling through them, at the set positions of a mask of the array's
/// shape (nothing happens without values; a mask of another shape is refused): the element at
/// the `j`-th set position becomes value `j % vals.len()`.
pub fn place<T: Copy>(arr: &mut NdArray<T>, mask: &NdArray<bool>, vals: &Vec<T>) -> (r: Result<(), ArrayError>)
    requires
        old(arr).wf(),
        mask.wf(),
    ensures
        final(arr).shape@ == old(arr).shape@,
        vals@.len() == 0 ==> r is Ok && final(arr).data@ == old(arr).data@,
        vals@.len() > 0 ==> (r is Err <==> mask.shape@ != old(arr).shape@),
        r is Err ==> r == Err::<(), ArrayError>(ArrayError::ShapeMismatch) && final(arr).data@ == old(arr).data@,
        r is Ok && vals@.len() > 0 ==> {
            &&& final(arr).data@.len() == old(arr).data@.len()
            &&& forall|i: int| 0 <= i < old(arr).data@.len() ==> #[trigger] final(arr).data@[i] == if mask.data@[i] {
                vals@[count_set(mask.data@, i) % (vals@.len() as int)]
            } else {
                old(arr).data@[i]
            }
        },
{
    if vals.len() == 0 {
        return Ok(());
    }
    if !crate::joining::vec_eq_usize(&arr.shape, &mask.shape) {
        return Err(ArrayError::ShapeMismatch);
    }
    let n = arr.data.len();
    let vl = vals.len();
    let ghost old_data = arr.data@;
    let mut j: usize = 0;
    let mut i: usize = 0;
    while i < n
        invariant
            0 <= i <= n,
            n == old_data.len(),
            n == mask.data@.len(),
            vl == vals@.len(),
            vl > 0,
            arr.data@.len() == n,
            arr.shape@ == old(arr).shape@,
            old_data == old(arr).data@,
            j as int == count_set(mask.data@, i as int),
            forall|i2: int| 0 <= i2 < i ==> #[trigger] arr.data@[i2] == if mask.data@[i2] {
                vals@[count_set(mask.data@, i2) % (vl as int)]
            } else {
                old_data[i2]
            },
            forall|i2: int| i <= i2 < n ==> #[trigger] arr.data@[i2] == old_data[i2],
        decreases n - i,
    {
        proof {
            lemma_count_set_bound(mask.data@, i as int);
        }
        if mask.data[i] {
            let v = vals[j % vl];
            arr.data.set(i, v);
            j = j + 1;
        }
        i = i + 1;
    }
    Ok(())
}

/// Writes values at the set positions of a mask with as many elements as the array: a single
/// value everywhere, otherwise the value at the same position (nothing happens without values).
/// A mask of another size, or values neither single nor one per element, are refused.
pub fn putmask<T: Copy>(arr: &mut NdArray<T>, mask: &Vec<bool>, vals: &Vec<T>) -> (r: Result<(), ArrayError>)
    requires
        old(arr).wf(),
    ensures
        final(arr).shape@ == old(arr).shape@,
        r is Err <==> mask@.len() != old(arr).data@.len()
            || (vals@.len() > 1 && vals@.len() != old(arr).data@.len()),
        r is Err ==> r == Err::<(), ArrayError>(ArrayError::ShapeMismatch) && final(arr).data@ == old(arr).data@,
        r is Ok && vals@.len() == 0 ==> final(arr).data@ == old(arr).data@,
        r is Ok && vals@.len() > 0 ==> {
            &&& final(arr).data@.len() == old(arr).data@.len()
            &&& forall|i: int| 0 <= i < old(arr).data@.len() ==> #[trigger] final(arr).data@[i] == if mask@[i] {
                if vals@.len() == 1 { vals@[0] } else { vals@[i] }
            } else {
                old(arr).data@[i]
            }
        },
{
    let n = arr.data.len();
    if mask.len() != n {
        return Err(ArrayError::ShapeMismatch);
    }
    let vl = vals.len();
    if vl == 0 {
        return Ok(());
    }
    if vl != 1 && vl != n {
        return Err(ArrayError::ShapeMismatch);
    }
    let ghost old_data = arr.data@;
    let mut i: usize = 0;
    while i < n
        invariant
            0 <= i <= n,
            n == old_data.len(),
            n == mask@.len(),
            vl == vals@.len(),
            vl == 1 || vl == n,
            arr.data@.len() == n,
            arr.shape@ == old(arr).shape@,
            old_data == old(arr).data@,
            forall|i2: int| 0 <= i2 < i ==> #[trigger] arr.data@[i2] == if mask@[i2] {
                if vl == 1 { vals@[0] } else { vals@[i2] }
            } else {
                old_data[i2]
            },
            forall|i2: int| i <= i2 < n ==> #[trigger] arr.data@[i2] == old_data[i2],
        decreases n - i,
    {
        if mask[i] {
            let v = if vl == 1 { vals[0] } else { vals[i] };
            arr.data.set(i, v);
        }
        i = i + 1;
    }
    Ok(())
}

/// `d` to the power `e`.
pub open spec fn power(d: int, e: nat) -> int
    decreases e,
{
    if e == 0 { 1 } else { power(d, (e - 1) as nat) * d }
}

proof fn lemma_power_nonneg(d: int, e: nat)
    requires
        d >= 0,
    ensures
        power(d, e) >= 0,
    decreases e,
{
    if e > 0 {
        lemma_power_nonneg(d, (e - 1) as nat);
        let p = power(d, (e - 1) as nat);
        assert(p * d >= 0) by (nonlinear_arith) requires p >= 0, d >= 0;
    }
}

/// Flat stride between consecutive diagonal elements of an array of `nd` equal dimensions `d`:
/// one plus the sum of `d, d^2, ..., d^(nd-1)`.
pub open spec fn diag_step(d: int, nd: int) -> int
    decreases nd,
{
    if nd <= 1 { 1 } else { diag_step(d, nd - 1) + power(d, (nd - 1) as nat) }
}

/// Every dimension equals the first.
pub open spec fn all_dims_equal(s: Seq<usize>) -> bool {
    forall|d: int| 0 <= d < s.len() ==> #[trigger] s[d] == s[0]
}

/// Step and end of the diagonal walk of `fill_diagonal`.
pub open spec fn diag_walk(shape: Seq<usize>, wrap: bool) -> (int, int) {
    if shape.len() == 2 {
        (shape[1] + 1, if wrap { prod(shape) as int } else { shape[1] * shape[1] })
    } else {
        (diag_step(shape[0] as int, shape.len() as int), prod(shape) as int)
    }
}

/// Position `k` of the diagonal walk is written.
pub open spec fn on_diag_walk(shape: Seq<usize>, wrap: bool, p: int) -> bool {
    let (step, end) = diag_walk(shape, wrap);
    p % step == 0 && p < end && p < prod(shape)
}

/// Fills the main diagonal in place, cycling through the values: walking the flat buffer from
/// position zero by the diagonal step, the `k`-th position reached before the end gets value
/// `k % vals.len()`. A matrix is walked by its row length plus one up to its last column's end
/// (to the end of the buffer with `wrap`); an array of more dimensions, which must all be equal,
/// by one plus the sum of the powers of the dimension. Fewer than two dimensions are refused.
pub fn fill_diagonal<T: Copy>(arr: &mut NdArray<T>, vals: &Vec<T>, wrap: bool) -> (r: Result<(), ArrayError>)
    requires
        old(arr).wf(),
        dims_fit(old(arr).shape@),
        old(arr).shape@.len() == 2 ==> old(arr).shape@[1] * old(arr).shape@[1] <= usize::MAX,
        old(arr).shape@.len() > 2 && all_dims_equal(old(arr).shape@) ==>
            diag_step(old(arr).shape@[0] as int, old(arr).shape@.len() as int) <= usize::MAX,
    ensures
        final(arr).shape@ == old(arr).shape@,
        final(arr).data@.len() == old(arr).data@.len(),
        (r == Err::<(), ArrayError>(ArrayError::TooFewDimensions)) <==> old(arr).shape@.len() < 2,
        (r == Err::<(), ArrayError>(ArrayError::ShapeMismatch)) <==> old(arr).shape@.len() > 2 && vals@.len() > 0
            && prod(old(arr).shape@) > 0 && !all_dims_equal(old(arr).shape@),
        r is Err || vals@.len() == 0 ==> final(arr).data@ == old(arr).data@,
        r is Ok && vals@.len() > 0 ==> forall|p: int| 0 <= p < old(arr).data@.len() ==> #[trigger] final(arr).data@[p] ==
            if on_diag_walk(old(arr).shape@, wrap, p) {
                vals@[(p / diag_walk(old(arr).shape@, wrap).0) % (vals@.len() as int)]
            } else {
                old(arr).data@[p]
            },
{
    let nd = arr.shape.len();
    if nd < 2 {
        return Err(ArrayError::TooFewDimensions);
    }
    let vl = vals.len();
    if vl == 0 {
        return Ok(());
    }
    let total = arr.data.len();
    if total == 0 {
        return Ok(());
    }
    let ghost s = arr.shape@;
    let step: usize = if nd == 2 {
        proof {
            crate::shape::lemma_dims_fit_axis(s, 1);
            crate::shape::lemma_prod_axis(s, 1);
            assert(s.skip(2).len() == 0);
            assert(crate::shape::post_of(s, 1) == 1);
            let a = crate::shape::pre_of(s, 1) as int;
            let b = s[1] as int;
            assert(b + 1 <= usize::MAX) by (nonlinear_arith) requires b * b <= usize::MAX, b >= 0;
        }
        arr.shape[1] + 1
    } else {
        let d0 = arr.shape[0];
        let mut d: usize = 1;
        while d < nd
            invariant
                1 <= d <= nd,
                nd == s.len(),
                nd > 2,
                vl > 0,
                vl == vals@.len(),
                s == old(arr).shape@,
                total == prod(s),
                total > 0,
                s == arr.shape@,
                d0 == s[0],
                forall|d2: int| 0 <= d2 < d ==> #[trigger] s[d2] == s[0],
            decreases nd - d,
        {
            if arr.shape[d] != d0 {
                proof {
                    assert(!all_dims_equal(s));
                }
                return Err(ArrayError::ShapeMismatch);
            }
            d = d + 1;
        }
        assert(all_dims_equal(s));
        diag_step_exec(d0, nd)
    };
    let end: usize = if nd == 2 && !wrap { arr.shape[1] * arr.shape[1] } else { total };
    proof {
        assert(step as int == diag_walk(s, wrap).0);
        assert(end as int == diag_walk(s, wrap).1);
        assert(step >= 1) by {
            if nd > 2 {
                lemma_diag_step_pos(s[0] as int, nd as int);
            }
        }
    }
    let ghost old_data = arr.data@;
    let mut k: usize = 0;
    let mut i: usize = 0;
    while i < end && i < total
        invariant
            total == old_data.len(),
            total == prod(s),
            s == old(arr).shape@,
            s.len() >= 2,
            s.len() > 2 ==> all_dims_equal(s),
            arr.shape@ == s,
            step >= 1,
            step as int == diag_walk(s, wrap).0,
            end as int == diag_walk(s, wrap).1,
            vl == vals@.len(),
            vl > 0,
            old_data == old(arr).data@,
            arr.data@.len() == total,
            i == k * step,
            forall|p: int| 0 <= p < total && p < i ==> #[trigger] arr.data@[p] ==
                if on_diag_walk(s, wrap, p) { vals@[(p / (step as int)) % (vl as int)] } else { old_data[p] },
            forall|p: int| i <= p < total ==> #[trigger] arr.data@[p] == old_data[p],
        decreases total - i,
    {
        proof {
            vstd::arithmetic::div_mod::lemma_fundamental_div_mod_converse(i as int, step as int, k as int, 0);
        }
        let v = vals[k % vl];
        arr.data.set(i, v);
        proof {
            assert forall|p: int| 0 <= p < total && p < i + step implies #[trigger] arr.data@[p] ==
                (if on_diag_walk(s, wrap, p) { vals@[(p / (step as int)) % (vl as int)] } else { old_data[p] }) by {
                if p > i {
                    assert(p % (step as int) != 0) by {
                        vstd::arithmetic::div_mod::lemma_fundamental_div_mod_converse(p, step as int, k as int, p - i);
                    }
                }
            }
        }
        assert((k + 1) * step == k * step + step) by (nonlinear_arith);
        if total - i <= step {
            proof {
                assert forall|p: int| 0 <= p < total implies #[trigger] arr.data@[p] ==
                    (if on_diag_walk(s, wrap, p) { vals@[(p / (step as int)) % (vl as int)] } else { old_data[p] }) by {
                }
            }
            return Ok(());
        }
        k = k + 1;
        i = i + step;
    }
    proof {
        assert forall|p: int| 0 <= p < total implies #[trigger] arr.data@[p] ==
            (if on_diag_walk(s, wrap, p) { vals@[(p / (step as int)) % (vl as int)] } else { old_data[p] }) by {
            if p >= i {
                assert(i >= end);
                assert(!on_diag_walk(s, wrap, p));
            }
        }
    }
    Ok(())
}

proof fn lemma_diag_step_pos(d: int, nd: int)
    requires
        d >= 0,
    ensures
        diag_step(d, nd) >= 1,
    decreases nd,
{
    if nd > 1 {
        lemma_diag_step_pos(d, nd - 1);
        lemma_power_nonneg(d, (nd - 1) as nat);
    }
}

/// `diag_step` computed by accumulating the powers.
fn diag_step_exec(d: usize, nd: usize) -> (r: usize)
    requires
        nd > 2,
        diag_step(d as int, nd as int) <= usize::MAX,
    ensures
        r as int == diag_step(d as int, nd as int),
{
    let mut acc: usize = 1;
    let mut sum: usize = 1;
    let mut k: usize = 1;
    while k < nd
        invariant
            1 <= k <= nd,
            diag_step(d as int, nd as int) <= usize::MAX,
            sum as int == diag_step(d as int, k as int),
            acc as int == power(d as int, (k - 1) as nat),
        decreases nd - k,
    {
        proof {
            lemma_diag_step_mono(d as int, k as int + 1, nd as int);
            lemma_power_nonneg(d as int, (k - 1) as nat);
            lemma_power_nonneg(d as int, k as nat);
            assert(diag_step(d as int, k as int + 1) == diag_step(d as int, k as int) + power(d as int, k as nat));
            assert(power(d as int, k as nat) == power(d as int, (k - 1) as nat) * d);
        }
        acc = acc * d;
        sum = sum + acc;
        k = k + 1;
    }
    sum
}

proof fn lemma_diag_step_mono(d: int, a: int, b: int)
    requires
        d >= 0,
        a <= b,
    ensures
        diag_step(d, a) <= diag_step(d, b),
    decreases b - a,
{
    if a < b {
        lemma_diag_step_mono(d, a, b - 1);
        if b > 1 {
            lemma_power_nonneg(d, (b - 1) as nat);
        }
    }
}

/// Copies `src` into `dst` in place: elementwise for equal shapes or equal sizes, one element
/// everywhere for a source of one element, and otherwise broadcast to the destination's shape
/// (dimensions aligned at the end, each equal or one), which is refused when it cannot be.
pub fn copyto<T: Copy>(dst: &mut NdArray<T>, src: &NdArray<T>) -> (r: Result<(), ArrayError>)
    requires
        old(dst).wf(),
        src.wf(),
        dims_fit(old(dst).shape@),
        dims_fit(src.shape@),
    ensures
        final(dst).shape@ == old(dst).shape@,
        r is Err <==> src.shape@ != old(dst).shape@ && src.data@.len() != 1 && src.data@.len() != old(dst).data@.len()
            && !block_covers(old(dst).shape@, src.shape@),
        r is Err ==> r == Err::<(), ArrayError>(ArrayError::ShapeMismatch) && final(dst).data@ == old(dst).data@,
        r is Ok ==> final(dst).data@.len() == old(dst).data@.len(),
        r is Ok && (src.shape@ == old(dst).shape@ || src.data@.len() == old(dst).data@.len()) ==> final(dst).data@ == src.data@,
        r is Ok && src.shape@ != old(dst).shape@ && src.data@.len() == 1 ==>
            forall|i: int| 0 <= i < old(dst).data@.len() ==> #[trigger] final(dst).data@[i] == src.data@[0],
        r is Ok && src.shape@ != old(dst).shape@ && src.data@.len() != 1 && src.data@.len() != old(dst).data@.len() ==>
            forall|m: Seq<int>| in_bounds(m, old(dst).shape@) ==>
                #[trigger] final(dst).data@[ravel(m, old(dst).shape@)] == src.data@[ravel(reduced_coords(m, src.shape@), src.shape@)],
{
    let n = dst.data.len();
    if crate::joining::vec_eq_usize(&src.shape, &dst.shape) || src.data.len() == n {
        let ghost ol = dst.data@;
        let mut i: usize = 0;
        while i < n
            invariant
                0 <= i <= n,
                n == src.data@.len(),
                dst.data@.len() == n,
                dst.shape@ == old(dst).shape@,
                forall|i2: int| 0 <= i2 < i ==> #[trigger] dst.data@[i2] == src.data@[i2],
            decreases n - i,
        {
            dst.data.set(i, src.data[i]);
            i = i + 1;
        }
        assert(dst.data@ =~= src.data@);
        return Ok(());
    }
    if src.data.len() == 1 {
        let v = src.data[0];
        let mut i: usize = 0;
        while i < n
            invariant
                0 <= i <= n,
                dst.data@.len() == n,
                dst.shape@ == old(dst).shape@,
                v == src.data@[0],
                forall|i2: int| 0 <= i2 < i ==> #[trigger] dst.data@[i2] == v,
            decreases n - i,
        {
            dst.data.set(i, v);
            i = i + 1;
        }
        return Ok(());
    }
    if !covers_exec(&dst.shape, &src.shape) {
        return Err(ArrayError::ShapeMismatch);
    }
    let ghost os = dst.shape@;
    let strides = compute_strides(&src.shape);
    let mut i: usize = 0;
    while i < n
        invariant
            0 <= i <= n,
            n == prod(os),
            os == dst.shape@,
            os == old(dst).shape@,
            dst.data@.len() == n,
            src.wf(),
            dims_fit(src.shape@),
            block_covers(os, src.shape@),
            strides@.len() == src.shape@.len(),
            forall|d: int| 0 <= d < src.shape@.len() ==> #[trigger] strides@[d] == crate::strides::stride(src.shape@, d),
            forall|l: int| 0 <= l < i ==>
                #[trigger] dst.data@[l] == src.data@[ravel(reduced_coords(unravel(l, os), src.shape@), src.shape@)],
        decreases n - i,
    {
        proof {
            assert forall|j: int| 0 <= j < os.len() implies #[trigger] os[j] > 0 by {
                if os[j] == 0 {
                    lemma_prod_zero(os, j);
                }
            }
            lemma_ravel_unravel(i as int, os);
        }
        let oc = flat_to_multi(i, &dst.shape);
        proof {
            assert(ints(oc@) =~= unravel(i as int, os));
        }
        let k = crate::broadcast::operand_index(src, &strides, &oc, Ghost(os));
        dst.data.set(i, src.data[k]);
        i = i + 1;
    }
    proof {
        assert forall|m: Seq<int>| in_bounds(m, os) implies
            #[trigger] dst.data@[ravel(m, os)] == src.data@[ravel(reduced_coords(m, src.shape@), src.shape@)] by {
            lemma_ravel_bound(m, os);
            if os.len() == 0 {
                assert(prod(os) == 1);
            }
            lemma_unravel_ravel(m, os);
        }
    }
    Ok(())
}

/// Whether the destination shape covers the source shape for broadcasting.
pub(crate) fn covers_exec(dst: &Vec<usize>, src: &Vec<usize>) -> (r: bool)
    ensures
        r == block_covers(dst@, src@),
{
    let dl = dst.len();
    let sl = src.len();
    if sl > dl {
        return false;
    }
    let mut dd: usize = 0;
    while dd < sl
        invariant
            0 <= dd <= sl,
            sl <= dl,
            sl == src@.len(),
            dl == dst@.len(),
            forall|e: int| 0 <= e < dd ==> (#[trigger] src@[e] == 1 || dst@[dst@.len() - sl + e] == src@[e]),
        decreases sl - dd,
    {
        if src[dd] != 1 && dst[dl - sl + dd] != src[dd] {
            return false;
        }
        dd = dd + 1;
    }
    true
}

} // verus!

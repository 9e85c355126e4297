use vstd::prelude::*;
use crate::array::ArrayError;
use vstd::arithmetic::div_mod::{lemma_div_denominator, lemma_div_is_ordered_by_denominator, lemma_div_pos_is_pos, lemma_mod_decreases};
use crate::shape::{dims_fit, lemma_prod_pos, lemma_prod_single, lemma_prod_split, lemma_prod_zero, post_of, pre_of, prod};
use crate::strides::{
    compute_strides, in_bounds, lemma_ravel_bound, lemma_ravel_unravel, lemma_stride_step, lemma_unravel_ravel,
    ravel, ravel_from, stride, unravel, unravel_coord,
};

verus! {

/// How out-of-range coordinates are handled by `ravel_multi_index`.
#[derive(Clone, Copy, Debug, PartialEq, Eq, Structural)]
pub enum ClipMode {
    /// Refuse coordinates outside their dimension.
    Raise,
    /// Reduce coordinates modulo their dimension.
    Wrap,
    /// Clamp coordinates into their dimension.
    Clip,
}

/// Memory order of a multi-index conversion.
#[derive(Clone, Copy, Debug, PartialEq, Eq, Structural)]
pub enum IndexOrder {
    /// Row-major: the last coordinate varies fastest.
    C,
    /// Column-major: the first coordinate varies fastest.
    F,
}

/// Stride of dimension `i` in the given order.
pub open spec fn order_stride(dims: Seq<usize>, i: int, order: IndexOrder) -> nat {
    match order {
        IndexOrder::C => stride(dims, i),
        IndexOrder::F => pre_of(dims, i),
    }
}

/// A coordinate after applying the mode (for `Raise` it is kept as is).
pub open spec fn adjusted(v: int, d: int, mode: ClipMode) -> int {
    match mode {
        ClipMode::Raise => v,
        ClipMode::Wrap => v % d,
        ClipMode::Clip => if v < 0 { 0 } else if v > d - 1 { d - 1 } else { v },
    }
}

/// Coordinates of entry `k`: element `k` of each coordinate array.
pub open spec fn entry(keys: Seq<Seq<i64>>, k: int) -> Seq<i64> {
    Seq::new(keys.len(), |i: int| keys[i][k])
}

/// Flat index of the coordinates `c`, summing the first `upto` of them, each adjusted by the
/// mode and multiplied by its stride in the given order.
pub open spec fn ravel_value(c: Seq<i64>, dims: Seq<usize>, mode: ClipMode, order: IndexOrder, upto: int) -> int
    decreases upto,
{
    if upto <= 0 {
        0
    } else {
        ravel_value(c, dims, mode, order, upto - 1)
            + adjusted(c[upto - 1] as int, dims[upto - 1] as int, mode) * (order_stride(dims, upto - 1, order) as int)
    }
}

/// Some coordinate of `c` lies outside its dimension (only refused in `Raise` mode).
pub open spec fn coords_invalid(c: Seq<i64>, dims: Seq<usize>) -> bool {
    exists|i: int| 0 <= i < c.len() && !(0 <= #[trigger] c[i] < dims[i])
}

/// Every contiguous run of dimensions has a product that fits in `i64`, so that strides and
/// flat positions can be held as signed 64-bit integers.
pub open spec fn runs_fit_i64(s: Seq<usize>) -> bool {
    forall|i: int, j: int| 0 <= i <= j <= s.len() ==> #[trigger] prod(s.subrange(i, j)) <= i64::MAX
}

/// Largest value the first `i` adjusted coordinates can contribute to a flat position.
pub open spec fn partial_bound(dims: Seq<usize>, order: IndexOrder, i: int) -> int
    decreases i,
{
    if i <= 0 {
        0
    } else {
        partial_bound(dims, order, i - 1) + (dims[i - 1] as int - 1) * (order_stride(dims, i - 1, order) as int)
    }
}

/// The bound telescopes: all dimensions minus the later ones (C), or the earlier ones minus one (F).
proof fn lemma_partial_bound_closed(dims: Seq<usize>, order: IndexOrder, i: int)
    requires
        0 <= i <= dims.len(),
    ensures
        partial_bound(dims, order, i) == match order {
            IndexOrder::C => prod(dims) - prod(dims.skip(i)),
            IndexOrder::F => pre_of(dims, i) - 1,
        },
    decreases i,
{
    if i == 0 {
        assert(dims.skip(0) =~= dims);
        assert(dims.take(0).len() == 0);
    } else {
        lemma_partial_bound_closed(dims, order, i - 1);
        let d = dims[i - 1] as int;
        match order {
            IndexOrder::C => {
                lemma_stride_step(dims, i - 1);
                let x = stride(dims, i - 1) as int;
                assert((d - 1) * x == d * x - x) by (nonlinear_arith);
                assert(dims.skip(i - 1 + 1) =~= dims.skip(i));
            },
            IndexOrder::F => {
                assert(dims.take(i).drop_last() =~= dims.take(i - 1));
                assert(dims.take(i).last() == dims[i - 1]);
                let x = pre_of(dims, i - 1) as int;
                assert((d - 1) * x == x * d - x) by (nonlinear_arith);
            },
        }
    }
}

/// Sizes that a signed run bound keeps within `i64`: a dimension, its stride and the bound.
proof fn lemma_signed_limits(dims: Seq<usize>, order: IndexOrder, i: int)
    requires
        0 <= i < dims.len(),
        runs_fit_i64(dims),
    ensures
        dims[i] <= i64::MAX,
        order_stride(dims, i, order) <= i64::MAX,
        partial_bound(dims, order, i + 1) <= i64::MAX,
{
    assert(dims.subrange(i, i + 1).len() == 1);
    lemma_prod_single(dims.subrange(i, i + 1));
    assert(prod(dims.subrange(i, i + 1)) <= i64::MAX);
    assert(dims.subrange(i + 1, dims.len() as int) =~= dims.skip(i + 1));
    assert(prod(dims.subrange(i + 1, dims.len() as int)) <= i64::MAX);
    assert(dims.subrange(0, i) =~= dims.take(i));
    assert(prod(dims.subrange(0, i)) <= i64::MAX);
    assert(dims.subrange(0, i + 1) =~= dims.take(i + 1));
    assert(prod(dims.subrange(0, i + 1)) <= i64::MAX);
    assert(dims.subrange(0, dims.len() as int) =~= dims);
    assert(prod(dims.subrange(0, dims.len() as int)) <= i64::MAX);
    lemma_partial_bound_closed(dims, order, i + 1);
}

/// Strides in the given order: `C` multiplies the later dimensions, `F` the earlier ones.
fn order_strides(dims: &Vec<usize>, order: IndexOrder) -> (r: Vec<usize>)
    requires
        dims_fit(dims@),
    ensures
        r@.len() == dims@.len(),
        forall|i: int| 0 <= i < dims@.len() ==> #[trigger] r@[i] == order_stride(dims@, i, order),
{
    match order {
        IndexOrder::C => compute_strides(dims),
        IndexOrder::F => {
            let mut r: Vec<usize> = Vec::new();
            let mut acc: usize = 1;
            let mut i: usize = 0;
            while i < dims.len()
                invariant
                    0 <= i <= dims@.len(),
                    dims_fit(dims@),
                    acc == prod(dims@.take(i as int)),
                    r@.len() == i,
                    forall|j: int| 0 <= j < i ==> #[trigger] r@[j] == pre_of(dims@, j),
                decreases dims@.len() - i,
            {
                r.push(acc);
                proof {
                    assert(dims@.take(i as int + 1).drop_last() =~= dims@.take(i as int));
                    assert(dims@.subrange(0, i as int + 1) =~= dims@.take(i as int + 1));
                    assert(prod(dims@.subrange(0, i as int + 1)) <= usize::MAX);
                }
                acc = acc * dims[i];
                i = i + 1;
            }
            r
        },
    }
}

/// Coordinate adjusted by the mode, for a dimension `1 <= d <= i64::MAX`.
fn adjust_exec(v: i64, d: usize, mode: ClipMode) -> (r: i64)
    requires
        1 <= d <= i64::MAX,
        mode == ClipMode::Raise ==> 0 <= v < d,
    ensures
        r as int == adjusted(v as int, d as int, mode),
        0 <= r < d,
{
    match mode {
        ClipMode::Raise => v,
        ClipMode::Wrap => {
            let dd = d as u64;
            if v >= 0 {
                ((v as u64) % dd) as i64
            } else {
                let t: u64 = (0 - (v as i128 + 1)) as u64;
                let neg = t % dd;
                proof {
                    let q = (t as int) / (dd as int);
                    vstd::arithmetic::div_mod::lemma_fundamental_div_mod(t as int, dd as int);
                    vstd::arithmetic::div_mod::lemma_mod_bound(t as int, dd as int);
                    assert(v as int == (dd as int) * (-q - 1) + (dd as int - 1 - neg as int)) by (nonlinear_arith)
                        requires t as int == (dd as int) * q + neg as int, v as int == -(t as int) - 1;
                    vstd::arithmetic::div_mod::lemma_fundamental_div_mod_converse(
                        v as int, dd as int, -q - 1, dd as int - 1 - neg as int);
                }
                (dd - 1 - neg) as i64
            }
        },
        ClipMode::Clip => {
            let hi = (d - 1) as i64;
            if v < 0 { 0 } else if v > hi { hi } else { v }
        },
    }
}

/// Flat indices of the multi-indices given coordinate array by coordinate array: entry `k`
/// of the result combines `multi_index[i][k]` over the arrays `i`, with strides of `dims` in
/// the given order. In `Raise` mode an out-of-range coordinate is refused.
pub fn ravel_multi_index(multi_index: &Vec<Vec<i64>>, dims: &Vec<usize>, mode: ClipMode, order: IndexOrder)
    -> (r: Result<Vec<i64>, ArrayError>)
    requires
        multi_index@.len() > 0,
        multi_index@.len() <= dims@.len(),
        forall|i: int| 0 <= i < multi_index@.len() ==> #[trigger] multi_index@[i]@.len() >= multi_index@[0]@.len(),
        dims_fit(dims@),
        runs_fit_i64(dims@),
        mode != ClipMode::Raise && multi_index@[0]@.len() > 0 ==>
            forall|i: int| 0 <= i < multi_index@.len() ==> #[trigger] dims@[i] > 0,
    ensures
        ({
            let keys = Seq::new(multi_index@.len(), |i: int| multi_index@[i]@);
            let n = multi_index@[0]@.len() as int;
            &&& (r is Err <==> mode == ClipMode::Raise && exists|k: int| 0 <= k < n && #[trigger] coords_invalid(entry(keys, k), dims@))
            &&& (r is Err ==> r == Err::<Vec<i64>, ArrayError>(ArrayError::IndexOutOfBounds))
            &&& (r matches Ok(v) ==> v@.len() == n && forall|k: int| 0 <= k < n ==>
                #[trigger] v@[k] as int == ravel_value(entry(keys, k), dims@, mode, order, keys.len() as int))
        }),
{
    let ghost keys = Seq::new(multi_index@.len(), |i: int| multi_index@[i]@);
    let n = multi_index[0].len();
    let nk = multi_index.len();
    let strides = order_strides(dims, order);
    let mut out: Vec<i64> = Vec::new();
    let mut k: usize = 0;
    while k < n
        invariant
            0 <= k <= n,
            n == multi_index@[0]@.len(),
            nk == multi_index@.len(),
            nk <= dims@.len(),
            keys == Seq::new(multi_index@.len(), |i: int| multi_index@[i]@),
            forall|i: int| 0 <= i < multi_index@.len() ==> #[trigger] multi_index@[i]@.len() >= n,
            dims_fit(dims@),
            runs_fit_i64(dims@),
            mode != ClipMode::Raise && n > 0 ==> forall|i: int| 0 <= i < nk ==> #[trigger] dims@[i] > 0,
            strides@.len() == dims@.len(),
            forall|i: int| 0 <= i < dims@.len() ==> #[trigger] strides@[i] == order_stride(dims@, i, order),
            mode == ClipMode::Raise ==> forall|k2: int| 0 <= k2 < k ==> !#[trigger] coords_invalid(entry(keys, k2), dims@),
            out@.len() == k,
            forall|k2: int| 0 <= k2 < k ==> #[trigger] out@[k2] as int == ravel_value(entry(keys, k2), dims@, mode, order, nk as int),
        decreases n - k,
    {
        let mut s: i64 = 0;
        let mut i: usize = 0;
        while i < nk
            invariant
                0 <= i <= nk,
                k < n,
                n == multi_index@[0]@.len(),
                nk == multi_index@.len(),
                nk <= dims@.len(),
                keys == Seq::new(multi_index@.len(), |i: int| multi_index@[i]@),
                forall|i2: int| 0 <= i2 < multi_index@.len() ==> #[trigger] multi_index@[i2]@.len() >= n,
                dims_fit(dims@),
                runs_fit_i64(dims@),
                mode != ClipMode::Raise ==> forall|i2: int| 0 <= i2 < nk ==> #[trigger] dims@[i2] > 0,
                strides@.len() == dims@.len(),
                forall|i2: int| 0 <= i2 < dims@.len() ==> #[trigger] strides@[i2] == order_stride(dims@, i2, order),
                mode == ClipMode::Raise ==> forall|i2: int| 0 <= i2 < i ==> 0 <= #[trigger] keys[i2][k as int] < dims@[i2],
                s as int == ravel_value(entry(keys, k as int), dims@, mode, order, i as int),
                0 <= s as int <= partial_bound(dims@, order, i as int),
            decreases nk - i,
        {
            let v = multi_index[i][k];
            let d = dims[i];
            if mode == ClipMode::Raise && (v < 0 || (v as i128) >= (d as i128)) {
                proof {
                    assert(!(0 <= entry(keys, k as int)[i as int] < dims@[i as int]));
                    assert(coords_invalid(entry(keys, k as int), dims@));
                }
                return Err(ArrayError::IndexOutOfBounds);
            }
            proof {
                lemma_signed_limits(dims@, order, i as int);
            }
            let a = adjust_exec(v, d, mode);
            proof {
                let st = order_stride(dims@, i as int, order) as int;
                assert(a * st <= (d as int - 1) * st) by (nonlinear_arith)
                    requires 0 <= a as int <= d as int - 1, st >= 0;
                assert(0 <= a * st) by (nonlinear_arith) requires 0 <= a as int, st >= 0;
            }
            s = s + a * (strides[i] as i64);
            i = i + 1;
        }
        out.push(s);
        k = k + 1;
    }
    Ok(out)
}

/// Quotient of `a` by `b > 0`, rounded toward zero.
pub open spec fn tdiv(a: int, b: int) -> int {
    if a >= 0 { a / b } else { -((-a) / b) }
}

/// Remainder of `a` by `b > 0`, with the sign of `a`.
pub open spec fn trem(a: int, b: int) -> int {
    if a >= 0 { a % b } else { -((-a) % b) }
}

/// The dimension taken at step `t` of an unravel over `n` dimensions: from the last one in C
/// order, from the first one in F order. Applying it twice gives `t` back.
pub open spec fn step_dim(n: int, order: IndexOrder, t: int) -> int {
    match order {
        IndexOrder::C => n - 1 - t,
        IndexOrder::F => t,
    }
}

/// What is left of the flat index `f` after dividing out the dimensions of the first `t` steps.
pub open spec fn remaining(f: int, dims: Seq<usize>, order: IndexOrder, t: int) -> int
    decreases t,
{
    if t <= 0 {
        f
    } else {
        tdiv(remaining(f, dims, order, t - 1), dims[step_dim(dims.len() as int, order, t - 1)] as int)
    }
}

/// Coordinate `i` that `unravel_index` gives for the flat index `f`.
pub open spec fn unravel_value(f: int, dims: Seq<usize>, order: IndexOrder, i: int) -> int {
    trem(remaining(f, dims, order, step_dim(dims.len() as int, order, i)), dims[i] as int)
}

/// Truncating quotient and remainder of `f` by `d`.
fn tdivrem(f: i64, d: usize) -> (qr: (i64, i64))
    requires
        1 <= d <= i64::MAX,
    ensures
        qr.0 as int == tdiv(f as int, d as int),
        qr.1 as int == trem(f as int, d as int),
{
    let dd = d as u64;
    if f >= 0 {
        let u = f as u64;
        proof {
            vstd::arithmetic::div_mod::lemma_div_is_ordered_by_denominator(u as int, 1, dd as int);
            vstd::arithmetic::div_mod::lemma_mod_bound(u as int, dd as int);
        }
        ((u / dd) as i64, (u % dd) as i64)
    } else {
        let m: u64 = (0i128 - f as i128) as u64;
        let q = m / dd;
        let r = m % dd;
        proof {
            vstd::arithmetic::div_mod::lemma_div_is_ordered_by_denominator(m as int, 1, dd as int);
            vstd::arithmetic::div_mod::lemma_mod_bound(m as int, dd as int);
        }
        ((0i128 - q as i128) as i64, (0i128 - r as i128) as i64)
    }
}

/// Coordinate arrays of flat indices: `r[i][k]` is coordinate `i` of `indices[k]` in an array
/// of dimensions `shape`, taken in the given order by repeated truncating division. Indices are
/// not checked against the size; a negative one gives coordinates of its sign.
pub fn unravel_index(indices: &Vec<i64>, shape: &Vec<usize>, order: IndexOrder) -> (r: Vec<Vec<i64>>)
    requires
        forall|i: int| 0 <= i < shape@.len() ==> #[trigger] shape@[i] <= i64::MAX,
        indices@.len() > 0 ==> forall|i: int| 0 <= i < shape@.len() ==> #[trigger] shape@[i] > 0,
    ensures
        r@.len() == shape@.len(),
        forall|i: int| 0 <= i < shape@.len() ==> (#[trigger] r@[i])@.len() == indices@.len(),
        forall|i: int, k: int| 0 <= i < shape@.len() && 0 <= k < indices@.len() ==>
            #[trigger] r@[i]@[k] as int == unravel_value(indices@[k] as int, shape@, order, i),
{
    let n = indices.len();
    let nd = shape.len();
    let mut rows: Vec<Vec<i64>> = Vec::new();
    let mut k: usize = 0;
    while k < n
        invariant
            0 <= k <= n,
            n == indices@.len(),
            nd == shape@.len(),
            forall|i: int| 0 <= i < nd ==> #[trigger] shape@[i] <= i64::MAX,
            n > 0 ==> forall|i: int| 0 <= i < nd ==> #[trigger] shape@[i] > 0,
            rows@.len() == k,
            forall|k2: int| 0 <= k2 < k ==> (#[trigger] rows@[k2])@.len() == nd,
            forall|k2: int, i: int| 0 <= k2 < k && 0 <= i < nd ==>
                #[trigger] rows@[k2]@[i] as int == unravel_value(indices@[k2] as int, shape@, order, i),
        decreases n - k,
    {
        let mut coords: Vec<i64> = Vec::new();
        let mut j: usize = 0;
        while j < nd
            invariant
                0 <= j <= nd,
                coords@.len() == j,
                forall|i: int| 0 <= i < j ==> coords@[i] == 0,
            decreases nd - j,
        {
            coords.push(0);
            j = j + 1;
        }
        let ghost flat = indices@[k as int] as int;
        let mut f: i64 = indices[k];
        let mut t: usize = 0;
        while t < nd
            invariant
                0 <= t <= nd,
                k < n,
                n == indices@.len(),
                nd == shape@.len(),
                flat == indices@[k as int] as int,
                forall|i: int| 0 <= i < nd ==> #[trigger] shape@[i] <= i64::MAX,
                forall|i: int| 0 <= i < nd ==> #[trigger] shape@[i] > 0,
                coords@.len() == nd,
                f as int == remaining(flat, shape@, order, t as int),
                forall|t2: int| 0 <= t2 < t ==> #[trigger] coords@[step_dim(nd as int, order, t2)] as int
                    == trem(remaining(flat, shape@, order, t2), shape@[step_dim(nd as int, order, t2)] as int),
            decreases nd - t,
        {
            let i: usize = match order {
                IndexOrder::C => nd - 1 - t,
                IndexOrder::F => t,
            };
            let qr = tdivrem(f, shape[i]);
            coords.set(i, qr.1);
            f = qr.0;
            t = t + 1;
        }
        proof {
            assert forall|i: int| 0 <= i < nd implies #[trigger] coords@[i] as int
                == unravel_value(flat, shape@, order, i) by {
                let t2 = step_dim(nd as int, order, i);
                assert(step_dim(nd as int, order, t2) == i);
                assert(0 <= t2 < nd);
            }
        }
        rows.push(coords);
        k = k + 1;
    }
    let mut cols: Vec<Vec<i64>> = Vec::new();
    let mut i: usize = 0;
    while i < nd
        invariant
            0 <= i <= nd,
            n == indices@.len(),
            nd == shape@.len(),
            rows@.len() == n,
            forall|k2: int| 0 <= k2 < n ==> (#[trigger] rows@[k2])@.len() == nd,
            forall|k2: int, i2: int| 0 <= k2 < n && 0 <= i2 < nd ==>
                #[trigger] rows@[k2]@[i2] as int == unravel_value(indices@[k2] as int, shape@, order, i2),
            cols@.len() == i,
            forall|i2: int| 0 <= i2 < i ==> (#[trigger] cols@[i2])@.len() == n,
            forall|i2: int, k2: int| 0 <= i2 < i && 0 <= k2 < n ==>
                #[trigger] cols@[i2]@[k2] as int == unravel_value(indices@[k2] as int, shape@, order, i2),
        decreases nd - i,
    {
        let mut col: Vec<i64> = Vec::new();
        let mut k: usize = 0;
        while k < n
            invariant
                0 <= k <= n,
                i < nd,
                n == indices@.len(),
                nd == shape@.len(),
                rows@.len() == n,
                forall|k2: int| 0 <= k2 < n ==> (#[trigger] rows@[k2])@.len() == nd,
                forall|k2: int, i2: int| 0 <= k2 < n && 0 <= i2 < nd ==>
                    #[trigger] rows@[k2]@[i2] as int == unravel_value(indices@[k2] as int, shape@, order, i2),
                col@.len() == k,
                forall|k2: int| 0 <= k2 < k ==> #[trigger] col@[k2] as int
                    == unravel_value(indices@[k2] as int, shape@, order, i as int),
            decreases n - k,
        {
            col.push(rows[k][i]);
            k = k + 1;
        }
        cols.push(col);
        i = i + 1;
    }
    cols
}

/// Coordinates as mathematical integers.
pub open spec fn as_ints(c: Seq<i64>) -> Seq<int> {
    Seq::new(c.len(), |i: int| c[i] as int)
}

/// In C order and `Raise` mode, the partial sum plus the rest of the position is the position.
proof fn lemma_ravel_value_c(c: Seq<i64>, dims: Seq<usize>, u: int)
    requires
        c.len() == dims.len(),
        0 <= u <= dims.len(),
    ensures
        ravel_value(c, dims, ClipMode::Raise, IndexOrder::C, u) + ravel_from(as_ints(c), dims, u)
            == ravel(as_ints(c), dims),
    decreases u,
{
    if u > 0 {
        lemma_ravel_value_c(c, dims, u - 1);
    }
}

/// In C order, what is left of a nonnegative flat index after `t` steps is its quotient by
/// the product of the last `t` dimensions.
proof fn lemma_remaining_c(f: int, dims: Seq<usize>, t: int)
    requires
        0 <= f,
        0 <= t <= dims.len(),
        forall|i: int| 0 <= i < dims.len() ==> #[trigger] dims[i] > 0,
    ensures
        remaining(f, dims, IndexOrder::C, t) == f / (prod(dims.skip(dims.len() - t)) as int),
    decreases t,
{
    let n = dims.len() as int;
    if t == 0 {
        assert(dims.skip(n).len() == 0);
        assert(prod(dims.skip(n)) == 1);
        assert(f / 1 == f) by (nonlinear_arith);
    } else {
        lemma_remaining_c(f, dims, t - 1);
        let e = n - t;
        lemma_stride_step(dims, e);
        assert(dims.skip(e + 1) =~= dims.skip(n - (t - 1)));
        let c = prod(dims.skip(e + 1)) as int;
        let d = dims[e] as int;
        lemma_prod_pos(dims.skip(e + 1));
        lemma_div_pos_is_pos(f, c);
        lemma_div_denominator(f, c, d);
        assert(c * d == d * c) by (nonlinear_arith);
        assert(step_dim(n, IndexOrder::C, t - 1) == e);
        assert(remaining(f, dims, IndexOrder::C, t - 1) == f / c);
        assert(prod(dims.skip(e)) == d * c);
        assert(remaining(f, dims, IndexOrder::C, t) == (f / c) / d);
    }
}

/// In C order, the coordinate `unravel_index` gives for a nonnegative flat index is the
/// quotient by the stride, reduced modulo the dimension.
proof fn lemma_unravel_value_c(f: int, dims: Seq<usize>, i: int)
    requires
        0 <= f,
        0 <= i < dims.len(),
        forall|j: int| 0 <= j < dims.len() ==> #[trigger] dims[j] > 0,
    ensures
        unravel_value(f, dims, IndexOrder::C, i) == unravel_coord(f, dims, i),
        0 <= unravel_value(f, dims, IndexOrder::C, i) <= f,
{
    let n = dims.len() as int;
    lemma_remaining_c(f, dims, n - 1 - i);
    assert(dims.skip(n - (n - 1 - i)) =~= dims.skip(i + 1));
    let st = stride(dims, i) as int;
    lemma_prod_pos(dims.skip(i + 1));
    lemma_div_pos_is_pos(f, st);
    lemma_div_is_ordered_by_denominator(f, 1, st);
    lemma_mod_decreases((f / st) as nat, dims[i] as nat);
}

/// Unraveling, in C order, the flat index of in-range coordinates gives those coordinates back.
pub proof fn law_unravel_of_ravel(c: Seq<i64>, dims: Seq<usize>)
    requires
        c.len() == dims.len(),
        forall|i: int| 0 <= i < c.len() ==> 0 <= #[trigger] c[i] < dims[i],
    ensures
        forall|i: int| 0 <= i < dims.len() ==> #[trigger] unravel_value(
            ravel_value(c, dims, ClipMode::Raise, IndexOrder::C, dims.len() as int), dims, IndexOrder::C, i)
            == c[i],
{
    let m = as_ints(c);
    let n = dims.len() as int;
    lemma_ravel_value_c(c, dims, n);
    let f = ravel_value(c, dims, ClipMode::Raise, IndexOrder::C, n);
    assert(in_bounds(m, dims));
    lemma_ravel_bound(m, dims);
    lemma_unravel_ravel(m, dims);
    assert forall|j: int| 0 <= j < dims.len() implies #[trigger] dims[j] > 0 by {
        assert(0 <= c[j] < dims[j]);
    }
    assert forall|i: int| 0 <= i < dims.len() implies #[trigger] unravel_value(f, dims, IndexOrder::C, i) == c[i] by {
        lemma_unravel_value_c(f, dims, i);
        assert(unravel(f, dims)[i] == m[i]);
    }
}

/// Every flat index inside the array unravels, in C order, to in-range coordinates whose flat
/// index is that index again.
pub proof fn law_ravel_of_unravel(f: i64, dims: Seq<usize>)
    requires
        0 <= f < prod(dims),
    ensures
        forall|i: int| 0 <= i < dims.len() ==> 0 <= #[trigger] unravel_value(f as int, dims, IndexOrder::C, i) < dims[i],
        ravel_value(Seq::new(dims.len(), |i: int| unravel_value(f as int, dims, IndexOrder::C, i) as i64),
            dims, ClipMode::Raise, IndexOrder::C, dims.len() as int) == f,
{
    let n = dims.len() as int;
    assert forall|j: int| 0 <= j < dims.len() implies #[trigger] dims[j] > 0 by {
        if dims[j] == 0 {
            lemma_prod_zero(dims, j);
        }
    }
    let c = Seq::new(dims.len(), |i: int| unravel_value(f as int, dims, IndexOrder::C, i) as i64);
    lemma_ravel_unravel(f as int, dims);
    assert forall|i: int| 0 <= i < dims.len() implies #[trigger] c[i] as int == unravel(f as int, dims)[i] by {
        lemma_unravel_value_c(f as int, dims, i);
    }
    assert(as_ints(c) =~= unravel(f as int, dims));
    lemma_ravel_value_c(c, dims, n);
    assert forall|i: int| 0 <= i < dims.len() implies 0 <= #[trigger] unravel_value(f as int, dims, IndexOrder::C, i) < dims[i] by {
        lemma_unravel_value_c(f as int, dims, i);
        assert(unravel(f as int, dims)[i] == unravel_value(f as int, dims, IndexOrder::C, i));
    }
}

/// The product of the dimensions does not depend on their order.
proof fn lemma_prod_reverse(s: Seq<usize>)
    ensures
        prod(s.reverse()) == prod(s),
    decreases s.len(),
{
    if s.len() > 0 {
        let r = s.reverse();
        assert(r.drop_last() =~= s.drop_first().reverse());
        assert(r.last() == s[0]);
        lemma_prod_reverse(s.drop_first());
        lemma_prod_split(s, 1);
        lemma_prod_single(s.take(1));
        assert(s.skip(1) =~= s.drop_first());
        assert(prod(r) == prod(r.drop_last()) * (r.last() as nat));
        vstd::arithmetic::mul::lemma_mul_is_commutative(prod(s.drop_first()) as int, s[0] as int);
    }
}

/// Column-major strides are the row-major strides of the reversed dimensions.
proof fn lemma_pre_of_reverse(dims: Seq<usize>, i: int)
    requires
        0 <= i < dims.len(),
    ensures
        pre_of(dims, i) == post_of(dims.reverse(), dims.len() - 1 - i),
{
    let n = dims.len() as int;
    assert(dims.reverse().skip(n - 1 - i + 1) =~= dims.take(i).reverse());
    lemma_prod_reverse(dims.take(i));
}

/// In column-major order, what is left of a flat index after `t` steps is what is left in
/// row-major order over the reversed dimensions.
proof fn lemma_remaining_f(f: int, dims: Seq<usize>, t: int)
    requires
        0 <= t <= dims.len(),
    ensures
        remaining(f, dims, IndexOrder::F, t) == remaining(f, dims.reverse(), IndexOrder::C, t),
    decreases t,
{
    if t > 0 {
        lemma_remaining_f(f, dims, t - 1);
        let n = dims.len() as int;
        assert(dims.reverse()[n - 1 - (t - 1)] == dims[t - 1]);
    }
}

/// Column-major flat positions are row-major positions of the reversed coordinates over the
/// reversed dimensions: the first `u` terms of the reversed sum are the last `u` terms.
proof fn lemma_ravel_value_f(c: Seq<i64>, dims: Seq<usize>, u: int)
    requires
        c.len() == dims.len(),
        0 <= u <= dims.len(),
    ensures
        ravel_value(c.reverse(), dims.reverse(), ClipMode::Raise, IndexOrder::C, u)
            == ravel_value(c, dims, ClipMode::Raise, IndexOrder::F, dims.len() as int)
            - ravel_value(c, dims, ClipMode::Raise, IndexOrder::F, dims.len() - u),
    decreases u,
{
    if u > 0 {
        lemma_ravel_value_f(c, dims, u - 1);
        let n = dims.len() as int;
        let j = n - u;
        assert(c.reverse()[u - 1] == c[j]);
        assert(dims.reverse()[u - 1] == dims[j]);
        lemma_pre_of_reverse(dims, j);
        assert(order_stride(dims.reverse(), u - 1, IndexOrder::C) == order_stride(dims, j, IndexOrder::F));
    }
}

/// Unraveling, in column-major order, the flat index of in-range coordinates gives those
/// coordinates back.
pub proof fn law_unravel_of_ravel_f(c: Seq<i64>, dims: Seq<usize>)
    requires
        c.len() == dims.len(),
        forall|i: int| 0 <= i < c.len() ==> 0 <= #[trigger] c[i] < dims[i],
    ensures
        forall|i: int| 0 <= i < dims.len() ==> #[trigger] unravel_value(
            ravel_value(c, dims, ClipMode::Raise, IndexOrder::F, dims.len() as int), dims, IndexOrder::F, i)
            == c[i],
{
    let n = dims.len() as int;
    let rc = c.reverse();
    let rd = dims.reverse();
    assert forall|k: int| 0 <= k < rc.len() implies 0 <= #[trigger] rc[k] < rd[k] by {
        assert(rc[k] == c[n - 1 - k]);
        assert(rd[k] == dims[n - 1 - k]);
    }
    law_unravel_of_ravel(rc, rd);
    lemma_ravel_value_f(c, dims, n);
    let f = ravel_value(c, dims, ClipMode::Raise, IndexOrder::F, n);
    assert(f == ravel_value(rc, rd, ClipMode::Raise, IndexOrder::C, n));
    assert forall|i: int| 0 <= i < dims.len() implies #[trigger] unravel_value(f, dims, IndexOrder::F, i) == c[i] by {
        lemma_remaining_f(f, dims, i);
        assert(rd[n - 1 - i] == dims[i]);
        assert(step_dim(n, IndexOrder::C, n - 1 - i) == i);
        assert(unravel_value(f, dims, IndexOrder::F, i) == unravel_value(f, rd, IndexOrder::C, n - 1 - i));
        assert(rc[n - 1 - i] == c[i]);
    }
}

/// Every flat index inside the array unravels, in column-major order, to in-range
/// coordinates whose column-major flat index is that index again.
pub proof fn law_ravel_of_unravel_f(f: i64, dims: Seq<usize>)
    requires
        0 <= f < prod(dims),
    ensures
        forall|i: int| 0 <= i < dims.len() ==> 0 <= #[trigger] unravel_value(f as int, dims, IndexOrder::F, i) < dims[i],
        ravel_value(Seq::new(dims.len(), |i: int| unravel_value(f as int, dims, IndexOrder::F, i) as i64),
            dims, ClipMode::Raise, IndexOrder::F, dims.len() as int) == f,
{
    let n = dims.len() as int;
    let rd = dims.reverse();
    lemma_prod_reverse(dims);
    law_ravel_of_unravel(f, rd);
    let v = Seq::new(dims.len(), |i: int| unravel_value(f as int, dims, IndexOrder::F, i) as i64);
    let u = Seq::new(rd.len(), |k: int| unravel_value(f as int, rd, IndexOrder::C, k) as i64);
    assert forall|i: int| 0 <= i < n implies unravel_value(f as int, dims, IndexOrder::F, i)
        == unravel_value(f as int, rd, IndexOrder::C, n - 1 - i) by {
        lemma_remaining_f(f as int, dims, i);
        assert(rd[n - 1 - i] == dims[i]);
        assert(step_dim(n, IndexOrder::C, n - 1 - i) == i);
    }
    assert forall|i: int| 0 <= i < dims.len() implies 0 <= #[trigger] unravel_value(f as int, dims, IndexOrder::F, i) < dims[i] by {
        assert(rd[n - 1 - i] == dims[i]);
        assert(0 <= unravel_value(f as int, rd, IndexOrder::C, n - 1 - i) < rd[n - 1 - i]);
    }
    assert(v.reverse() =~= u);
    lemma_ravel_value_f(v, dims, n);
}

} // verus!

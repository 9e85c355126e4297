use vstd::prelude::*;
use crate::array::NdArray;
use crate::broadcast::{lemma_nonzero_prod_bounds, nonzero_prod};
use crate::shape::{checked_size, prod};
use crate::shapes::lemma_prod_small;

verus! {

/// Number of columns of `eye`: `m` when given, otherwise `n`.
pub open spec fn eye_cols(n: usize, m: Option<usize>) -> usize {
    match m { Some(c) => c, None => n }
}

/// Flat position of row `i`, column `j` of a row-major matrix with `cols` columns.
pub open spec fn at2(i: int, j: int, cols: int) -> int {
    i * cols + j
}

/// Identity-like `n x cols` matrix: `one` where the column minus the row equals `k`,
/// `zero` elsewhere.
pub fn eye<T: Copy>(n: usize, m: Option<usize>, k: i32, zero: T, one: T) -> (r: NdArray<T>)
    requires
        k != i32::MIN,
        n * eye_cols(n, m) <= usize::MAX,
        n + 2147483648 <= usize::MAX,
        eye_cols(n, m) + 2147483648 <= usize::MAX,
    ensures
        r.wf(),
        r.shape@ == seq![n, match m { Some(c) => c, None => n }],
        forall|i: int, j: int| 0 <= i < n && 0 <= j < eye_cols(n, m) ==>
            #[trigger] r.data@[at2(i, j, eye_cols(n, m) as int)] == (if j - i == k as int { one } else { zero }),
{
    let cols: usize = match m { Some(c) => c, None => n };
    let total = n * cols;
    assert(cols > 0 || total == 0) by (nonlinear_arith) requires total == n * cols;
    let mut data: Vec<T> = Vec::new();
    let mut p: usize = 0;
    while p < total
        invariant
            0 <= p <= total,
            total == n * cols,
            cols > 0 || total == 0,
            k != i32::MIN,
            data@.len() == p,
            forall|q: int| 0 <= q < p ==> #[trigger] data@[q] == (if (q % cols as int) - (q / cols as int) == k as int { one } else { zero }),
        decreases total - p,
    {
        let i = p / cols;
        let j = p % cols;
        // a one wherever the column is the row shifted by k
        let on = if k >= 0 { j >= i && j - i == k as usize } else { i >= j && i - j == (0 - k) as usize };
        data.push(if on { one } else { zero });
        p = p + 1;
    }
    let mut shape: Vec<usize> = Vec::new();
    shape.push(n);
    shape.push(cols);
    proof { lemma_prod_small(shape@); }
    assert forall|i: int, j: int| 0 <= i < n && 0 <= j < cols implies
        #[trigger] data@[at2(i, j, cols as int)] == (if j - i == k as int { one } else { zero }) by {
        assert(0 <= i * cols + j < n * cols) by (nonlinear_arith) requires 0 <= i < n, 0 <= j < cols;
        vstd::arithmetic::div_mod::lemma_fundamental_div_mod_converse(i * cols + j, cols as int, i, j);
    }
    NdArray { data, shape }
}

/// `|k|`.
pub open spec fn mag(k: int) -> int {
    if k < 0 { -k } else { k }
}

/// Number of elements on diagonal `k` of a `rows x cols` matrix.
pub open spec fn diag_len(rows: int, cols: int, k: int) -> int {
    let r0 = if k < 0 { -k } else { 0 };
    let c0 = if k > 0 { k } else { 0 };
    if r0 < rows && c0 < cols {
        if rows - r0 < cols - c0 { rows - r0 } else { cols - c0 }
    } else {
        0
    }
}

/// For a two-dimensional `v`, its `k`-th diagonal; otherwise the square matrix of side
/// `len + |k|` that holds the elements of `v` on its `k`-th diagonal and `zero` elsewhere.
pub fn diag<T: Copy>(v: &NdArray<T>, k: isize, zero: T) -> (r: NdArray<T>)
    requires
        v.wf(),
        k != isize::MIN,
        v.shape@.len() != 2 ==> (v.data@.len() + mag(k as int)) * (v.data@.len() + mag(k as int)) <= usize::MAX,
    ensures
        r.wf(),
        v.shape@.len() == 2 ==> {
            let rows = v.shape@[0] as int;
            let cols = v.shape@[1] as int;
            let cnt = diag_len(rows, cols, k as int);
            let r0 = if k < 0 { -(k as int) } else { 0 };
            let c0 = if k > 0 { k as int } else { 0 };
            &&& r.shape@ == seq![cnt as usize]
            &&& forall|i: int| 0 <= i < cnt ==> #[trigger] r.data@[i] == v.data@[at2(r0 + i, c0 + i, cols)]
        },
        v.shape@.len() != 2 ==> {
            let len = v.data@.len() as int;
            let n = len + mag(k as int);
            &&& r.shape@ == seq![n as usize, n as usize]
            &&& forall|i: int, j: int| 0 <= i < n && 0 <= j < n ==> #[trigger] r.data@[at2(i, j, n)] == (
                if k >= 0 { if j == i + k && i < len { v.data@[i] } else { zero } }
                else { if i == j - k && j < len { v.data@[j] } else { zero } })
        },
{
    if v.shape.len() == 2 {
        let rows = v.shape[0];
        let cols = v.shape[1];
        proof { lemma_prod_small(v.shape@); }
        let r0: usize = if k < 0 { (0 - k) as usize } else { 0 };
        let c0: usize = if k > 0 { k as usize } else { 0 };
        let dl = v.data.len();
        let mut out: Vec<T> = Vec::new();
        let mut rr = r0;
        let mut cc = c0;
        while rr < rows && cc < cols
            invariant
                dl == v.data@.len(),
                r0 as int == (if k < 0 { -(k as int) } else { 0 }),
                c0 as int == (if k > 0 { k as int } else { 0 }),
                (r0 < rows && c0 < cols) ==> (rr <= rows && cc <= cols),
                !(r0 < rows && c0 < cols) ==> rr == r0 && cc == c0,
                rr >= r0, cc >= c0,
                rr - r0 == cc - c0,
                out@.len() == rr - r0,
                v.data@.len() == rows * cols,
                forall|i: int| 0 <= i < out@.len() ==> #[trigger] out@[i] == v.data@[at2(r0 + i, c0 + i, cols as int)],
            decreases rows - rr,
        {
            proof {
                assert(rr * cols + cc < rows * cols) by (nonlinear_arith) requires rr < rows, cc < cols;
                assert(rr * cols <= rr * cols + cc);
            }
            out.push(v.data[rr * cols + cc]);
            rr = rr + 1;
            cc = cc + 1;
        }
        assert(out@.len() == diag_len(rows as int, cols as int, k as int));
        let mut shape: Vec<usize> = Vec::new();
        shape.push(out.len());
        proof { lemma_prod_small(shape@); }
        NdArray { data: out, shape }
    } else {
        let len = v.data.len();
        let km: usize = if k < 0 { (0 - k) as usize } else { k as usize };
        proof {
            let x = len + km;
            assert(x <= x * x || x == 0) by (nonlinear_arith) requires x >= 0;
        }
        let n = len + km;
        let total = n * n;
        let mut out: Vec<T> = Vec::new();
        let mut p: usize = 0;
        while p < total
            invariant
                0 <= p <= total,
                total == n * n,
                n == len + km,
                len == v.data@.len(),
                km as int == mag(k as int),
                out@.len() == p,
                forall|q: int| 0 <= q < p ==> #[trigger] out@[q] == ({
                    let i = q / n as int;
                    let j = q % n as int;
                    if k >= 0 { if j == i + k && i < len { v.data@[i] } else { zero } }
                    else { if i == j - k && j < len { v.data@[j] } else { zero } }
                }),
            decreases total - p,
        {
            proof {
                assert(n > 0) by (nonlinear_arith) requires p < total, total == n * n;
            }
            let i = p / n;
            let j = p % n;
            let val = if k >= 0 {
                if j >= i && j - i == km && i < len { v.data[i] } else { zero }
            } else {
                if i >= j && i - j == km && j < len { v.data[j] } else { zero }
            };
            out.push(val);
            p = p + 1;
        }
        let mut shape: Vec<usize> = Vec::new();
        shape.push(n);
        shape.push(n);
        proof { lemma_prod_small(shape@); }
        assert forall|i: int, j: int| 0 <= i < n && 0 <= j < n implies #[trigger] out@[at2(i, j, n as int)] == (
            if k >= 0 { if j == i + k && i < len { v.data@[i] } else { zero } }
            else { if i == j - k && j < len { v.data@[j] } else { zero } }) by {
            assert(0 <= i * n + j < n * n) by (nonlinear_arith) requires 0 <= i < n, 0 <= j < n;
            vstd::arithmetic::div_mod::lemma_fundamental_div_mod_converse(i * n + j, n as int, i, j);
        }
        NdArray { data: out, shape }
    }
}

/// Row and column coordinates of the lower triangle `j <= i + k` of an `n x cols` matrix,
/// row by row.
pub open spec fn tril_row_len(i: int, k: int, cols: int) -> int {
    let mx = if i + k < cols - 1 { i + k } else { cols - 1 };
    if mx < 0 { 0 } else { mx + 1 }
}

pub open spec fn tril_rows(n: int, k: int, cols: int) -> Seq<usize>
    decreases n,
{
    if n <= 0 { Seq::empty() } else {
        tril_rows(n - 1, k, cols) + Seq::new(tril_row_len(n - 1, k, cols) as nat, |j: int| (n - 1) as usize)
    }
}

pub open spec fn tril_cols(n: int, k: int, cols: int) -> Seq<usize>
    decreases n,
{
    if n <= 0 { Seq::empty() } else {
        tril_cols(n - 1, k, cols) + Seq::new(tril_row_len(n - 1, k, cols) as nat, |j: int| j as usize)
    }
}

/// Coordinates of the lower triangle (`j <= i + k`) of an `n x m` matrix (`m` defaults to
/// `n`), listed row by row.
pub fn tril_indices(n: usize, k: isize, m: Option<usize>) -> (r: (Vec<usize>, Vec<usize>))
    requires
        n <= isize::MAX,
        eye_cols(n, m) <= isize::MAX,
        isize::MIN <= n + k <= isize::MAX,
    ensures
        r.0@ == tril_rows(n as int, k as int, eye_cols(n, m) as int),
        r.1@ == tril_cols(n as int, k as int, eye_cols(n, m) as int),
{
    let cols: usize = match m { Some(c) => c, None => n };
    let mut rows_out: Vec<usize> = Vec::new();
    let mut cols_out: Vec<usize> = Vec::new();
    let mut i: usize = 0;
    while i < n
        invariant
            0 <= i <= n,
            n <= isize::MAX,
            cols <= isize::MAX,
            cols == eye_cols(n, m),
            isize::MIN <= n + k <= isize::MAX,
            rows_out@ == tril_rows(i as int, k as int, cols as int),
            cols_out@ == tril_cols(i as int, k as int, cols as int),
        decreases n - i,
    {
        let a: isize = i as isize + k;
        let b: isize = cols as isize - 1;
        let mx = if a < b { a } else { b };
        if mx >= 0 {
            let mut j: usize = 0;
            let end = mx as usize;
            while j <= end
                invariant
                    0 <= j <= end + 1,
                    end as int == tril_row_len(i as int, k as int, cols as int) - 1,
                    rows_out@ == tril_rows(i as int, k as int, cols as int) + Seq::new(j as nat, |q: int| i as usize),
                    cols_out@ == tril_cols(i as int, k as int, cols as int) + Seq::new(j as nat, |q: int| q as usize),
                    end < usize::MAX,
                decreases end + 1 - j,
            {
                rows_out.push(i);
                cols_out.push(j);
                proof {
                    assert(Seq::new(j as nat, |q: int| i as usize).push(i) =~= Seq::new((j + 1) as nat, |q: int| i as usize));
                    assert(Seq::new(j as nat, |q: int| q as usize).push(j) =~= Seq::new((j + 1) as nat, |q: int| q as usize));
                }
                j = j + 1;
            }
        }
        proof {
            assert(tril_rows(i as int + 1, k as int, cols as int) =~= tril_rows(i as int, k as int, cols as int)
                + Seq::new(tril_row_len(i as int, k as int, cols as int) as nat, |q: int| i as usize));
        }
        i = i + 1;
    }
    (rows_out, cols_out)
}

/// Whether the coordinate lists hold the pair `(i, j)` at some common position.
pub open spec fn lists_coord(rows: Seq<usize>, cols: Seq<usize>, i: int, j: int) -> bool {
    exists|p: int| 0 <= p < rows.len() && p < cols.len() && rows[p] == i && cols[p] == j
}

/// The coordinates of `tril_indices` for an `n x cols` matrix are exactly the entries
/// `(i, j)` of the matrix with `j <= i + k`: every listed pair lies inside the matrix and on
/// or below the `k`-th diagonal, every such entry is listed, and the pairs come row by row
/// with columns increasing, so none is listed twice.
pub proof fn law_tril_indices_lower_triangle(n: int, k: int, cols: int)
    requires
        0 <= n <= usize::MAX,
        0 <= cols <= usize::MAX,
    ensures
        tril_rows(n, k, cols).len() == tril_cols(n, k, cols).len(),
        forall|p: int| 0 <= p < tril_rows(n, k, cols).len() ==> {
            &&& (#[trigger] tril_rows(n, k, cols)[p]) < n
            &&& tril_cols(n, k, cols)[p] < cols
            &&& tril_cols(n, k, cols)[p] <= tril_rows(n, k, cols)[p] + k
        },
        forall|i: int, j: int| 0 <= i < n && 0 <= j < cols && j <= i + k ==>
            #[trigger] lists_coord(tril_rows(n, k, cols), tril_cols(n, k, cols), i, j),
        forall|p: int, q: int| 0 <= p < q < tril_rows(n, k, cols).len() ==>
            #[trigger] tril_rows(n, k, cols)[p] < #[trigger] tril_rows(n, k, cols)[q]
            || (tril_rows(n, k, cols)[p] == tril_rows(n, k, cols)[q] && tril_cols(n, k, cols)[p] < tril_cols(n, k, cols)[q]),
    decreases n,
{
    if n > 0 {
        law_tril_indices_lower_triangle(n - 1, k, cols);
        let ro = tril_rows(n - 1, k, cols);
        let co = tril_cols(n - 1, k, cols);
        let r = tril_rows(n, k, cols);
        let c = tril_cols(n, k, cols);
        let lo = ro.len() as int;
        let l = tril_row_len(n - 1, k, cols);
        assert(r =~= ro + Seq::new(l as nat, |j: int| (n - 1) as usize));
        assert(c =~= co + Seq::new(l as nat, |j: int| j as usize));
        assert forall|p: int| 0 <= p < r.len() implies {
            &&& (#[trigger] r[p]) < n
            &&& c[p] < cols
            &&& c[p] <= r[p] + k
        } by {
            if p < lo {
                assert(r[p] == ro[p]);
                assert(c[p] == co[p]);
            } else {
                assert(r[p] == n - 1);
                assert(c[p] == p - lo);
            }
        }
        assert forall|i: int, j: int| 0 <= i < n && 0 <= j < cols && j <= i + k implies
            #[trigger] lists_coord(r, c, i, j) by {
            if i < n - 1 {
                assert(lists_coord(ro, co, i, j));
                let p = choose|p: int| 0 <= p < ro.len() && p < co.len() && ro[p] == i && co[p] == j;
                assert(r[p] == ro[p] && c[p] == co[p]);
            } else {
                let p = lo + j;
                assert(r[p] == i && c[p] == j);
            }
        }
        assert forall|p: int, q: int| 0 <= p < q < r.len() implies
            #[trigger] r[p] < #[trigger] r[q] || (r[p] == r[q] && c[p] < c[q]) by {
            if q < lo {
                assert(r[p] == ro[p] && r[q] == ro[q] && c[p] == co[p] && c[q] == co[q]);
                assert(ro[p] < ro[q] || (ro[p] == ro[q] && co[p] < co[q]));
            } else if p < lo {
                assert(r[p] == ro[p] && ro[p] < n - 1);
                assert(r[q] == n - 1);
            } else {
                assert(r[p] == n - 1 && r[q] == n - 1);
                assert(c[p] == p - lo && c[q] == q - lo);
            }
        }
    }
}

/// First column of row `i` in the upper triangle `j >= i + k`.
pub open spec fn triu_row_start(i: int, k: int) -> int {
    if i + k > 0 { i + k } else { 0 }
}

/// Number of columns of row `i` in the upper triangle of a matrix with `cols` columns.
pub open spec fn triu_row_len(i: int, k: int, cols: int) -> int {
    if triu_row_start(i, k) >= cols { 0 } else { cols - triu_row_start(i, k) }
}

pub open spec fn triu_rows(n: int, k: int, cols: int) -> Seq<usize>
    decreases n,
{
    if n <= 0 { Seq::empty() } else {
        triu_rows(n - 1, k, cols) + Seq::new(triu_row_len(n - 1, k, cols) as nat, |j: int| (n - 1) as usize)
    }
}

pub open spec fn triu_cols(n: int, k: int, cols: int) -> Seq<usize>
    decreases n,
{
    if n <= 0 { Seq::empty() } else {
        triu_cols(n - 1, k, cols) + Seq::new(triu_row_len(n - 1, k, cols) as nat,
            |j: int| (triu_row_start(n - 1, k) + j) as usize)
    }
}

/// The coordinates of `triu_indices` for an `n x cols` matrix are exactly the entries
/// `(i, j)` of the matrix with `j >= i + k`: every listed pair lies inside the matrix and on
/// or above the `k`-th diagonal, every such entry is listed, and the pairs come row by row
/// with columns increasing, so none is listed twice.
pub proof fn law_triu_indices_upper_triangle(n: int, k: int, cols: int)
    requires
        0 <= n <= usize::MAX,
        0 <= cols <= usize::MAX,
    ensures
        triu_rows(n, k, cols).len() == triu_cols(n, k, cols).len(),
        forall|p: int| 0 <= p < triu_rows(n, k, cols).len() ==> {
            &&& (#[trigger] triu_rows(n, k, cols)[p]) < n
            &&& triu_cols(n, k, cols)[p] < cols
            &&& triu_cols(n, k, cols)[p] >= triu_rows(n, k, cols)[p] + k
        },
        forall|i: int, j: int| 0 <= i < n && 0 <= j < cols && j >= i + k ==>
            #[trigger] lists_coord(triu_rows(n, k, cols), triu_cols(n, k, cols), i, j),
        forall|p: int, q: int| 0 <= p < q < triu_rows(n, k, cols).len() ==>
            #[trigger] triu_rows(n, k, cols)[p] < #[trigger] triu_rows(n, k, cols)[q]
            || (triu_rows(n, k, cols)[p] == triu_rows(n, k, cols)[q] && triu_cols(n, k, cols)[p] < triu_cols(n, k, cols)[q]),
    decreases n,
{
    if n > 0 {
        law_triu_indices_upper_triangle(n - 1, k, cols);
        let ro = triu_rows(n - 1, k, cols);
        let co = triu_cols(n - 1, k, cols);
        let r = triu_rows(n, k, cols);
        let c = triu_cols(n, k, cols);
        let lo = ro.len() as int;
        let l = triu_row_len(n - 1, k, cols);
        let st = triu_row_start(n - 1, k);
        assert(r =~= ro + Seq::new(l as nat, |j: int| (n - 1) as usize));
        assert(c =~= co + Seq::new(l as nat, |j: int| (st + j) as usize));
        assert forall|p: int| 0 <= p < r.len() implies {
            &&& (#[trigger] r[p]) < n
            &&& c[p] < cols
            &&& c[p] >= r[p] + k
        } by {
            if p < lo {
                assert(r[p] == ro[p]);
                assert(c[p] == co[p]);
            } else {
                assert(r[p] == n - 1);
                assert(c[p] == st + p - lo);
            }
        }
        assert forall|i: int, j: int| 0 <= i < n && 0 <= j < cols && j >= i + k implies
            #[trigger] lists_coord(r, c, i, j) by {
            if i < n - 1 {
                assert(lists_coord(ro, co, i, j));
                let p = choose|p: int| 0 <= p < ro.len() && p < co.len() && ro[p] == i && co[p] == j;
                assert(r[p] == ro[p] && c[p] == co[p]);
            } else {
                let p = lo + j - st;
                assert(r[p] == i && c[p] == j);
            }
        }
        assert forall|p: int, q: int| 0 <= p < q < r.len() implies
            #[trigger] r[p] < #[trigger] r[q] || (r[p] == r[q] && c[p] < c[q]) by {
            if q < lo {
                assert(r[p] == ro[p] && r[q] == ro[q] && c[p] == co[p] && c[q] == co[q]);
                assert(ro[p] < ro[q] || (ro[p] == ro[q] && co[p] < co[q]));
            } else if p < lo {
                assert(r[p] == ro[p] && ro[p] < n - 1);
                assert(r[q] == n - 1);
            } else {
                assert(r[p] == n - 1 && r[q] == n - 1);
                assert(c[p] == st + p - lo && c[q] == st + q - lo);
            }
        }
    }
}

/// Coordinates of the upper triangle (`j >= i + k`) of an `n x m` matrix (`m` defaults to
/// `n`), listed row by row.
pub fn triu_indices(n: usize, k: isize, m: Option<usize>) -> (r: (Vec<usize>, Vec<usize>))
    requires
        n <= isize::MAX,
        eye_cols(n, m) <= isize::MAX,
        isize::MIN <= n + k <= isize::MAX,
    ensures
        r.0@ == triu_rows(n as int, k as int, eye_cols(n, m) as int),
        r.1@ == triu_cols(n as int, k as int, eye_cols(n, m) as int),
{
    let cols: usize = match m { Some(c) => c, None => n };
    let mut rows_out: Vec<usize> = Vec::new();
    let mut cols_out: Vec<usize> = Vec::new();
    let mut i: usize = 0;
    while i < n
        invariant
            0 <= i <= n,
            n <= isize::MAX,
            cols <= isize::MAX,
            cols == eye_cols(n, m),
            isize::MIN <= n + k <= isize::MAX,
            rows_out@ == triu_rows(i as int, k as int, cols as int),
            cols_out@ == triu_cols(i as int, k as int, cols as int),
        decreases n - i,
    {
        let a: isize = i as isize + k;
        let mn: isize = if a > 0 { a } else { 0 };
        if mn < cols as isize {
            let start = mn as usize;
            let mut j: usize = start;
            while j < cols
                invariant
                    start <= j <= cols,
                    start as int == triu_row_start(i as int, k as int),
                    rows_out@ == triu_rows(i as int, k as int, cols as int) + Seq::new((j - start) as nat, |q: int| i as usize),
                    cols_out@ == triu_cols(i as int, k as int, cols as int) + Seq::new((j - start) as nat, |q: int| (start + q) as usize),
                decreases cols - j,
            {
                rows_out.push(i);
                cols_out.push(j);
                proof {
                    assert(Seq::new((j - start) as nat, |q: int| i as usize).push(i)
                        =~= Seq::new((j + 1 - start) as nat, |q: int| i as usize));
                    assert(Seq::new((j - start) as nat, |q: int| (start + q) as usize).push(j)
                        =~= Seq::new((j + 1 - start) as nat, |q: int| (start + q) as usize));
                }
                j = j + 1;
            }
        }
        proof {
            assert(triu_rows(i as int + 1, k as int, cols as int) =~= triu_rows(i as int, k as int, cols as int)
                + Seq::new(triu_row_len(i as int, k as int, cols as int) as nat, |q: int| i as usize));
            assert(triu_cols(i as int + 1, k as int, cols as int) =~= triu_cols(i as int, k as int, cols as int)
                + Seq::new(triu_row_len(i as int, k as int, cols as int) as nat, |q: int| (triu_row_start(i as int, k as int) + q) as usize));
        }
        i = i + 1;
    }
    (rows_out, cols_out)
}

/// An array of the given shape with every element `value`. The product of the non-zero
/// dimensions must be at most `isize::MAX`.
pub fn full<T: Copy>(shape: &Vec<usize>, value: T) -> (r: NdArray<T>)
    requires
        nonzero_prod(shape@) <= isize::MAX,
    ensures
        r.wf(),
        r.shape@ == shape@,
        forall|i: int| 0 <= i < r.data@.len() ==> #[trigger] r.data@[i] == value,
{
    proof {
        lemma_nonzero_prod_bounds(shape@, 0);
    }
    let n = match checked_size(shape) {
        Some(t) => t,
        None => 0,
    };
    let mut data: Vec<T> = Vec::new();
    let mut i: usize = 0;
    while i < n
        invariant
            0 <= i <= n,
            n == prod(shape@),
            data@.len() == i,
            forall|j: int| 0 <= j < i ==> #[trigger] data@[j] == value,
        decreases n - i,
    {
        data.push(value);
        i = i + 1;
    }
    NdArray { data, shape: crate::layout::copy_vec(shape) }
}

} // verus!

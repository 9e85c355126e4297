use vstd::prelude::*;
use crate::array::{axis_ok, gather_along, lemma_axis_sizes, norm_axis, normalize_axis, ArrayError, NdArray};
use crate::index_math::{flat3, lemma_flat3};
use crate::layout::{copy_vec, gathered};
use crate::permute::{ints, ravel_exec};
use crate::shape::{dims_fit, post_of, pre_of, prod, sub_prod};
use crate::strides::{compute_strides, in_bounds, lemma_ravel_bound, ravel};

verus! {

/// Each of the `n * reps` positions of a repeated axis names position `k % n` of the source.
pub open spec fn cyclic_positions(n: int, count: int) -> Seq<usize> {
    Seq::new(count as nat, |k: int| (k % n) as usize)
}

/// Position named by a `take` index along an axis of size `n`: negative values count from
/// the end, and any value that still falls outside names the last position.
pub open spec fn take_position(v: int, n: int) -> int {
    if v < 0 {
        if v + n >= 0 { v + n } else { n - 1 }
    } else if v < n {
        v
    } else {
        n - 1
    }
}

/// Along an axis of `n` elements, a `take` index `v` with `-n <= v < n` names a position
/// inside the axis: `v` itself when it is not negative, `v + n` (counted from the end) when
/// it is; so `v` and `v - n` name the same position.
pub proof fn law_take_index_counts_from_end(v: int, n: int)
    requires
        -n <= v < n,
    ensures
        0 <= take_position(v, n) < n,
        v >= 0 ==> take_position(v, n) == v,
        v < 0 ==> take_position(v, n) == v + n,
        v >= 0 ==> take_position(v - n, n) == take_position(v, n),
{
}

/// The positions that a list of `take` indices names along an axis of size `n`.
pub open spec fn take_positions(indices: Seq<isize>, n: int) -> Seq<usize> {
    indices.map_values(|v: isize| take_position(v as int, n) as usize)
}

/// A one-dimensional shape holding `n` elements has product `n`.
pub proof fn lemma_prod_1d(s: Seq<usize>)
    requires
        s.len() == 1,
    ensures
        prod(s) == s[0] as nat,
{
    crate::shape::lemma_prod_single(s);
}

/// Position named by a flat `take` index when no axis is given: negative values name the
/// first element.
pub open spec fn flat_take_position(v: int) -> int {
    if v < 0 { 0 } else { v }
}

/// Without an axis, a `take` index that is not negative names that element of the flattened
/// array, and a negative one names the first element.
pub proof fn law_flat_take_index(v: int)
    ensures
        v >= 0 ==> flat_take_position(v) == v,
        v < 0 ==> flat_take_position(v) == 0,
{
}

/// Position named by a `put` index in a buffer of `len` elements: negative values count
/// from the end; the index is used only when the position lies inside the buffer.
pub open spec fn put_position(v: int, len: int) -> int {
    if v < 0 { v + len } else { v }
}

/// A `put` index `v` with `-len <= v < len` writes a position inside the buffer: `v` itself
/// when it is not negative, `v + len`, counted from the end, when it is; so `v` and
/// `v - len` write the same position.
pub proof fn law_put_index_counts_from_end(v: int, len: int)
    requires
        -len <= v < len,
    ensures
        0 <= put_position(v, len) < len,
        v >= 0 ==> put_position(v, len) == v,
        v < 0 ==> put_position(v, len) == v + len,
        v >= 0 ==> put_position(v - len, len) == put_position(v, len),
{
}

/// The buffer after the first `k` writes of `put`, applied in order.
pub open spec fn put_fold<T>(data: Seq<T>, indices: Seq<isize>, values: Seq<T>, k: int) -> Seq<T>
    decreases k,
{
    if k <= 0 {
        data
    } else {
        let before = put_fold(data, indices, values, k - 1);
        let p = put_position(indices[k - 1] as int, data.len() as int);
        if 0 <= p < data.len() {
            before.update(p, values[(k - 1) % (values.len() as int)])
        } else {
            before
        }
    }
}

/// `put_fold` keeps the length of the buffer.
pub proof fn lemma_put_fold_len<T>(data: Seq<T>, indices: Seq<isize>, values: Seq<T>, k: int)
    ensures
        put_fold(data, indices, values, k).len() == data.len(),
    decreases k,
{
    if k > 0 {
        lemma_put_fold_len(data, indices, values, k - 1);
    }
}

/// The shape that `reshape` resolves from the requested dimensions for `total` elements:
/// at most one `-1` is inferred, every other entry must be positive, and the product must
/// match the number of elements.
pub open spec fn reshape_target(total: int, s: Seq<isize>) -> Result<Seq<usize>, ArrayError> {
    let unknown = count_unknown(s);
    let known = signed_positive_prod(s);
    if unknown > 1 {
        Err(ArrayError::MultipleUnknownDimensions)
    } else if unknown == 1 && total % known != 0 {
        Err(ArrayError::ShapeMismatch)
    } else if exists|i: int| 0 <= i < s.len() && s[i] <= 0 && !(unknown == 1 && s[i] == -1) {
        Err(ArrayError::InvalidDimension)
    } else {
        let out = s.map_values(|v: isize| if v == -1 { (total / known) as usize } else { v as usize });
        if prod(out) != total {
            Err(ArrayError::ShapeMismatch)
        } else {
            Ok(out)
        }
    }
}

/// Number of entries equal to `-1` (dimensions left to be inferred).
pub open spec fn count_unknown(s: Seq<isize>) -> nat
    decreases s.len(),
{
    if s.len() == 0 {
        0
    } else if s.last() == -1 {
        count_unknown(s.drop_last()) + 1
    } else {
        count_unknown(s.drop_last())
    }
}

/// Product of the positive entries (1 when there are none).
pub open spec fn signed_positive_prod(s: Seq<isize>) -> int
    decreases s.len(),
{
    if s.len() == 0 {
        1
    } else if s.last() > 0 {
        signed_positive_prod(s.drop_last()) * (s.last() as int)
    } else {
        signed_positive_prod(s.drop_last())
    }
}

/// The product of positive entries is positive.
pub proof fn lemma_signed_positive_prod_pos(s: Seq<isize>)
    ensures
        signed_positive_prod(s) >= 1,
    decreases s.len(),
{
    if s.len() > 0 {
        lemma_signed_positive_prod_pos(s.drop_last());
        if s.last() > 0 {
            let a = signed_positive_prod(s.drop_last());
            let b = s.last() as int;
            assert(a * b >= 1) by (nonlinear_arith) requires a >= 1, b >= 1;
        }
    }
}

/// The product of positive entries of a prefix is at most that of the whole sequence.
pub proof fn lemma_positive_prod_prefix(s: Seq<isize>, i: int)
    requires
        0 <= i <= s.len(),
    ensures
        signed_positive_prod(s.take(i)) <= signed_positive_prod(s),
    decreases s.len(),
{
    if i < s.len() {
        let dl = s.drop_last();
        lemma_positive_prod_prefix(dl, i);
        assert(dl.take(i) =~= s.take(i));
        lemma_signed_positive_prod_pos(dl);
        if s.last() > 0 {
            let a = signed_positive_prod(dl);
            let b = s.last() as int;
            assert(a <= a * b) by (nonlinear_arith) requires a >= 1, b >= 1;
        }
    } else {
        assert(s.take(i) =~= s);
    }
}

impl<T: Copy> NdArray<T> {
    /// Repeats the data: without an axis every element is repeated `repeats` times in turn;
    /// along an axis the whole run of that axis is repeated `repeats` times.
    pub fn repeat(&self, repeats: usize, axis: Option<isize>) -> (r: NdArray<T>)
        requires
            self.wf(),
            dims_fit(self.shape@),
            self.data@.len() * repeats <= usize::MAX,
            axis matches Some(x) ==> axis_ok(x as int, self.shape@.len() as int),
            axis matches Some(x) ==> self.shape@[norm_axis(x as int, self.shape@.len() as int)] * repeats <= usize::MAX,
        ensures
            r.wf(),
            axis is None ==> r.shape@ == seq![(self.data@.len() * repeats) as usize]
                && r.data@ == Seq::new((self.data@.len() * repeats) as nat, |j: int| self.data@[j / repeats as int]),
            axis matches Some(x) ==> {
                let ax = norm_axis(x as int, self.shape@.len() as int);
                let n = self.shape@[ax] as int;
                &&& r.shape@ == self.shape@.update(ax, (n * repeats) as usize)
                &&& r.data@ == gathered(self.data@, pre_of(self.shape@, ax) as int, n,
                    post_of(self.shape@, ax) as int, cyclic_positions(n, n * repeats))
            },
    {
        match axis {
            None => {
                let len = self.data.len();
                let mut out: Vec<T> = Vec::new();
                let mut j: usize = 0;
                while j < len
                    invariant
                        len == self.data@.len(),
                        len * repeats <= usize::MAX,
                        0 <= j <= len,
                        out@.len() == j * repeats,
                        forall|q: int| 0 <= q < j * repeats ==> #[trigger] out@[q] == self.data@[q / repeats as int],
                    decreases len - j,
                {
                    let v = self.data[j];
                    let mut t: usize = 0;
                    proof {
                        assert(j * repeats + repeats <= len * repeats) by (nonlinear_arith)
                            requires j < len;
                    }
                    while t < repeats
                        invariant
                            0 <= t <= repeats,
                            j < len,
                            j * repeats + repeats <= len * repeats,
                            len * repeats <= usize::MAX,
                            v == self.data@[j as int],
                            out@.len() == j * repeats + t,
                            forall|q: int| 0 <= q < j * repeats + t ==> #[trigger] out@[q] == self.data@[q / repeats as int],
                        decreases repeats - t,
                    {
                        proof {
                            vstd::arithmetic::div_mod::lemma_fundamental_div_mod_converse(
                                (j * repeats + t) as int, repeats as int, j as int, t as int);
                        }
                        out.push(v);
                        t = t + 1;
                    }
                    proof {
                        assert(j * repeats + repeats == (j + 1) * repeats) by (nonlinear_arith);
                    }
                    j = j + 1;
                }
                let mut shape: Vec<usize> = Vec::new();
                shape.push(len * repeats);
                proof {
                    lemma_prod_1d(shape@);
                }
                NdArray { data: out, shape }
            },
            Some(x) => {
                let ax = normalize_axis(x, self.shape.len()).unwrap();
                let n = self.shape[ax];
                let _len = self.data.len();
                proof {
                    lemma_axis_sizes(self.shape@, ax as int);
                    let pre = pre_of(self.shape@, ax as int);
                    let post = post_of(self.shape@, ax as int);
                    assert(pre * (n * repeats) * post == (pre * n * post) * repeats) by (nonlinear_arith);
                }
                let count: usize = n * repeats;
                let mut sel: Vec<usize> = Vec::new();
                let mut k: usize = 0;
                while k < count
                    invariant
                        0 <= k <= count,
                        count == n * repeats,
                        sel@ =~= cyclic_positions(n as int, (n * repeats) as int).take(k as int),
                    decreases count - k,
                {
                    sel.push(k % n);
                    k = k + 1;
                }
                proof {
                    assert(sel@ =~= cyclic_positions(n as int, (n * repeats) as int));
                }
                gather_along(self, ax, &sel)
            },
        }
    }
}

/// Taking along an axis of `n` elements from a buffer viewed as `[pre, n, post]`: in every
/// slice through the other axes, the entry that index `v` (with `-n <= v < n`) selects is
/// the source entry at `v` when `v >= 0`, and at `v + n`, counted from the end, when `v < 0`.
pub proof fn law_take_along_axis_reads_counted_position<T>(data: Seq<T>, pre: int, n: int, post: int,
    indices: Seq<isize>, o: int, k: int, i: int)
    requires
        n <= usize::MAX,
        0 <= o < pre,
        0 <= k < indices.len(),
        0 <= i < post,
        -n <= indices[k] < n,
    ensures
        gathered(data, pre, n, post, take_positions(indices, n))[flat3(o, k, i, indices.len() as int, post)]
            == data[flat3(o, if indices[k] < 0 { indices[k] + n } else { indices[k] as int }, i, n, post)],
{
    let m = indices.len() as int;
    lemma_flat3(o, k, i, pre, m, post);
}

impl<T: Copy> NdArray<T> {
    /// Takes elements by index: from the flattened array when no axis is given (a negative
    /// index names the first element and an index past the end yields `fill`), or whole
    /// slices along `axis` (see `take_position`).
    pub fn take(&self, indices: &Vec<isize>, axis: Option<isize>, fill: T) -> (r: Result<NdArray<T>, ArrayError>)
        requires
            self.wf(),
            dims_fit(self.shape@),
            axis matches Some(x) ==> (axis_ok(x as int, self.shape@.len() as int) ==> {
                let ax = norm_axis(x as int, self.shape@.len() as int);
                &&& (self.shape@[ax] > 0 || indices@.len() == 0 || pre_of(self.shape@, ax) == 0)
                &&& pre_of(self.shape@, ax) * indices@.len() * post_of(self.shape@, ax) <= usize::MAX
            }),
        ensures
            axis is None ==> (r matches Ok(t) && t.wf() && t.shape@ == seq![indices@.len() as usize]
                && t.data@ == Seq::new(indices@.len(), |k: int|
                    if flat_take_position(indices@[k] as int) < self.data@.len() {
                        self.data@[flat_take_position(indices@[k] as int)]
                    } else {
                        fill
                    })),
            axis matches Some(x) ==> (r is Err <==> !axis_ok(x as int, self.shape@.len() as int)),
            axis matches Some(x) ==> (r is Err ==> r == Err::<NdArray<T>, ArrayError>(ArrayError::AxisOutOfBounds)),
            axis matches Some(x) ==> (r matches Ok(t) ==> {
                let ax = norm_axis(x as int, self.shape@.len() as int);
                let n = self.shape@[ax] as int;
                &&& t.wf()
                &&& t.shape@ == self.shape@.update(ax, indices@.len() as usize)
                &&& t.data@ == gathered(self.data@, pre_of(self.shape@, ax) as int, n,
                    post_of(self.shape@, ax) as int, take_positions(indices@, n))
            }),
    {
        match axis {
            None => {
                let len = self.data.len();
                let mut out: Vec<T> = Vec::new();
                let mut k: usize = 0;
                while k < indices.len()
                    invariant
                        len == self.data@.len(),
                        0 <= k <= indices@.len(),
                        out@.len() == k,
                        forall|k2: int| 0 <= k2 < k ==> #[trigger] out@[k2] == (
                            if flat_take_position(indices@[k2] as int) < self.data@.len() {
                                self.data@[flat_take_position(indices@[k2] as int)]
                            } else {
                                fill
                            }),
                    decreases indices@.len() - k,
                {
                    let v = indices[k];
                    let p: usize = if v < 0 { 0 } else { v as usize };
                    if p < len {
                        out.push(self.data[p]);
                    } else {
                        out.push(fill);
                    }
                    k = k + 1;
                }
                let mut shape: Vec<usize> = Vec::new();
                shape.push(indices.len());
                proof {
                    lemma_prod_1d(shape@);
                }
                assert(out@ =~= Seq::new(indices@.len(), |k: int|
                    if flat_take_position(indices@[k] as int) < self.data@.len() {
                        self.data@[flat_take_position(indices@[k] as int)]
                    } else {
                        fill
                    }));
                Ok(NdArray { data: out, shape })
            },
            Some(x) => {
                let ax = match normalize_axis(x, self.shape.len()) {
                    Some(v) => v,
                    None => { return Err(ArrayError::AxisOutOfBounds); },
                };
                let n = self.shape[ax];
                let _len = self.data.len();
                proof {
                    lemma_axis_sizes(self.shape@, ax as int);
                }
                if n == 0 {
                    let (pre, _n, post) = crate::array::axis_layout(&self.shape, ax);
                    let mut shape = copy_vec(&self.shape);
                    shape.set(ax, indices.len());
                    proof {
                        crate::array::lemma_update_axis(self.shape@, ax as int, indices@.len() as usize);
                        assert(pre * indices@.len() * post == 0) by (nonlinear_arith)
                            requires pre == 0 || indices@.len() == 0;
                        assert(gathered(self.data@, pre as int, n as int, post as int,
                            take_positions(indices@, n as int)).len() == 0);
                    }
                    let data: Vec<T> = Vec::new();
                    assert(data@ =~= gathered(self.data@, pre as int, n as int, post as int,
                        take_positions(indices@, n as int)));
                    return Ok(NdArray { data, shape });
                }
                let mut sel: Vec<usize> = Vec::new();
                let mut k: usize = 0;
                while k < indices.len()
                    invariant
                        0 <= k <= indices@.len(),
                        n > 0,
                        sel@ =~= take_positions(indices@, n as int).take(k as int),
                        forall|k2: int| 0 <= k2 < k ==> #[trigger] sel@[k2] < n,
                    decreases indices@.len() - k,
                {
                    let v = indices[k];
                    let p: usize = if v < 0 {
                        let neg: usize = ((0 - (v + 1)) as usize) + 1;
                        if neg <= n { n - neg } else { n - 1 }
                    } else if (v as usize) < n {
                        v as usize
                    } else {
                        n - 1
                    };
                    sel.push(p);
                    k = k + 1;
                }
                assert(sel@ =~= take_positions(indices@, n as int));
                Ok(gather_along(self, ax, &sel))
            },
        }
    }

    /// Writes `values` (used cyclically) at the flat positions named by `indices`, in order;
    /// negative indices count from the end and indices outside the buffer are skipped.
    pub fn put(&mut self, indices: &Vec<isize>, values: &Vec<T>)
        requires
            old(self).wf(),
            values@.len() > 0 || forall|j: int| 0 <= j < indices@.len() ==>
                !(0 <= #[trigger] put_position(indices@[j] as int, old(self).data@.len() as int) < old(self).data@.len()),
        ensures
            final(self).shape@ == old(self).shape@,
            final(self).data@ == put_fold(old(self).data@, indices@, values@, indices@.len() as int),
            final(self).wf(),
    {
        let len = self.data.len();
        let mut k: usize = 0;
        while k < indices.len()
            invariant
                len == old(self).data@.len(),
                self.shape@ == old(self).shape@,
                0 <= k <= indices@.len(),
                values@.len() > 0 || forall|j: int| 0 <= j < indices@.len() ==>
                    !(0 <= #[trigger] put_position(indices@[j] as int, len as int) < len),
                self.data@ == put_fold(old(self).data@, indices@, values@, k as int),
            decreases indices@.len() - k,
        {
            proof {
                lemma_put_fold_len(old(self).data@, indices@, values@, k as int);
            }
            let v = indices[k];
            let p: Option<usize> = if v < 0 {
                let neg: usize = ((0 - (v + 1)) as usize) + 1;
                if neg <= len { Some(len - neg) } else { None }
            } else if (v as usize) < len {
                Some(v as usize)
            } else {
                None
            };
            match p {
                Some(q) => {
                    assert(0 <= put_position(indices@[k as int] as int, len as int) < len);
                    let val = values[k % values.len()];
                    self.data.set(q, val);
                },
                None => {},
            }
            k = k + 1;
        }
        proof {
            lemma_put_fold_len(old(self).data@, indices@, values@, indices@.len() as int);
        }
    }

    /// Changes the shape in place; the flat data is truncated, or repeated cyclically to fill
    /// the new size.
    pub fn resize(&mut self, new_shape: &Vec<usize>)
        requires
            old(self).wf(),
            dims_fit(new_shape@),
            old(self).data@.len() > 0 || prod(new_shape@) == 0,
        ensures
            final(self).wf(),
            final(self).shape@ == new_shape@,
            final(self).data@ == Seq::new(prod(new_shape@), |j: int| old(self).data@[j % (old(self).data@.len() as int)]),
    {
        let new_size = crate::shape::shape_size(new_shape);
        let len = self.data.len();
        let mut out: Vec<T> = Vec::new();
        let mut j: usize = 0;
        while j < new_size
            invariant
                len == self.data@.len(),
                self.data@ == old(self).data@,
                len > 0 || new_size == 0,
                0 <= j <= new_size,
                out@.len() == j,
                forall|q: int| 0 <= q < j ==> #[trigger] out@[q] == self.data@[q % (len as int)],
            decreases new_size - j,
        {
            out.push(self.data[j % len]);
            j = j + 1;
        }
        assert(out@ =~= Seq::new(prod(new_shape@), |j: int| old(self).data@[j % (old(self).data@.len() as int)]));
        self.data = out;
        self.shape = copy_vec(new_shape);
    }

    /// The same data viewed with the requested shape (see `reshape_target`).
    pub fn reshape(&self, shape: &Vec<isize>) -> (r: Result<NdArray<T>, ArrayError>)
        requires
            self.wf(),
            signed_positive_prod(shape@) <= isize::MAX,
        ensures
            match reshape_target(self.data@.len() as int, shape@) {
                Ok(s) => (r matches Ok(t) && t.shape@ == s && t.data@ == self.data@ && t.wf()),
                Err(e) => r == Err::<NdArray<T>, ArrayError>(e),
            },
    {
        let total: usize = self.data.len();
        proof { lemma_signed_positive_prod_pos(shape@); }
        // count the unknown dimensions and multiply the known ones
        let mut unknown: usize = 0;
        let mut known: isize = 1;
        let mut i: usize = 0;
        while i < shape.len()
            invariant
                0 <= i <= shape@.len(),
                signed_positive_prod(shape@) <= isize::MAX,
                unknown == count_unknown(shape@.take(i as int)),
                known == signed_positive_prod(shape@.take(i as int)),
                unknown <= i,
            decreases shape@.len() - i,
        {
            proof {
                let t = shape@.take(i as int + 1);
                assert(t.drop_last() =~= shape@.take(i as int));
                lemma_positive_prod_prefix(shape@, i as int + 1);
                lemma_signed_positive_prod_pos(shape@.take(i as int));
            }
            let v = shape[i];
            if v == -1 {
                unknown = unknown + 1;
            }
            if v > 0 {
                known = known * v;
            }
            i = i + 1;
        }
        assert(shape@.take(shape@.len() as int) =~= shape@);
        if unknown > 1 {
            return Err(ArrayError::MultipleUnknownDimensions);
        }
        proof { lemma_signed_positive_prod_pos(shape@); }
        let known_u: usize = known as usize;
        if unknown == 1 && total % known_u != 0 {
            return Err(ArrayError::ShapeMismatch);
        }
        let mut out: Vec<usize> = Vec::new();
        let mut i: usize = 0;
        while i < shape.len()
            invariant
                0 <= i <= shape@.len(),
                known_u as int == signed_positive_prod(shape@),
                known_u >= 1,
                unknown == count_unknown(shape@),
                unknown <= 1,
                total == self.data@.len(),
                !(unknown == 1 && (total as int) % (known_u as int) != 0),
                out@ =~= shape@.take(i as int).map_values(|v: isize| if v == -1 { (total as int / known_u as int) as usize } else { v as usize }),
                forall|j: int| 0 <= j < i ==> !(shape@[j] <= 0 && !(unknown == 1 && shape@[j] == -1)),
            decreases shape@.len() - i,
        {
            let v = shape[i];
            if v == -1 && unknown == 1 {
                out.push(total / known_u);
            } else if v <= 0 {
                assert(shape@[i as int] <= 0 && !(unknown == 1 && shape@[i as int] == -1));
                return Err(ArrayError::InvalidDimension);
            } else {
                out.push(v as usize);
            }
            i = i + 1;
        }
        assert(shape@.take(shape@.len() as int) =~= shape@);
        let size = crate::shape::checked_size(&out);
        match size {
            Some(sz) if sz == total => {
                Ok(NdArray { data: copy_vec(&self.data), shape: out })
            },
            _ => Err(ArrayError::ShapeMismatch),
        }
    }
}

/// Each given coordinate lies within its dimension, counting negative ones from the end;
/// coordinates past the last dimension are not looked at.
pub open spec fn item_coords_ok(idx: Seq<isize>, shape: Seq<usize>) -> bool {
    forall|d: int| 0 <= d < idx.len() && d < shape.len() ==> -(shape[d] as int) <= #[trigger] idx[d] < shape[d] as int
}

/// The coordinates that `item` reads: the given ones resolved, zero for the missing ones.
pub open spec fn item_coords(idx: Seq<isize>, shape: Seq<usize>) -> Seq<int> {
    Seq::new(shape.len(), |d: int| if d < idx.len() { norm_axis(idx[d] as int, shape[d] as int) } else { 0 })
}

impl<T: Copy> NdArray<T> {
    /// The element at coordinates `idx`. With no coordinates the array must hold exactly one
    /// element, which comes back.
    pub fn item(&self, idx: &Vec<isize>) -> (r: Result<T, ArrayError>)
        requires
            self.wf(),
            dims_fit(self.shape@),
            idx@.len() > 0 && item_coords_ok(idx@, self.shape@) ==>
                forall|d: int| idx@.len() <= d < self.shape@.len() ==> #[trigger] self.shape@[d] > 0,
        ensures
            idx@.len() == 0 ==> (r is Ok <==> self.data@.len() == 1),
            idx@.len() == 0 && r is Ok ==> r == Ok::<T, ArrayError>(self.data@[0]),
            idx@.len() == 0 && r is Err ==> r == Err::<T, ArrayError>(ArrayError::InvalidArgument),
            idx@.len() > 0 ==> (r is Ok <==> item_coords_ok(idx@, self.shape@)),
            idx@.len() > 0 && r is Err ==> r == Err::<T, ArrayError>(ArrayError::IndexOutOfBounds),
            idx@.len() > 0 && r is Ok ==> r == Ok::<T, ArrayError>(
                self.data@[ravel(item_coords(idx@, self.shape@), self.shape@)]),
    {
        if idx.len() == 0 {
            if self.data.len() != 1 {
                return Err(ArrayError::InvalidArgument);
            }
            return Ok(self.data[0]);
        }
        let ndim = self.shape.len();
        let mut coords: Vec<usize> = Vec::new();
        let mut d: usize = 0;
        while d < ndim
            invariant
                0 <= d <= ndim,
                ndim == self.shape@.len(),
                coords@.len() == d,
                forall|e: int| 0 <= e < d && e < idx@.len() ==> -(self.shape@[e] as int) <= #[trigger] idx@[e] < self.shape@[e] as int,
                forall|e: int| 0 <= e < d ==> #[trigger] coords@[e] as int == item_coords(idx@, self.shape@)[e],
            decreases ndim - d,
        {
            if d < idx.len() {
                let dim = self.shape[d];
                let v = idx[d];
                if v < 0 {
                    let back: usize = ((0 - (v + 1)) as usize) + 1;
                    if back > dim {
                        return Err(ArrayError::IndexOutOfBounds);
                    }
                    coords.push(dim - back);
                } else {
                    let f = v as usize;
                    if f >= dim {
                        return Err(ArrayError::IndexOutOfBounds);
                    }
                    coords.push(f);
                }
            } else {
                coords.push(0);
            }
            d = d + 1;
        }
        let strides = compute_strides(&self.shape);
        proof {
            assert(ints(coords@) =~= item_coords(idx@, self.shape@));
            assert(in_bounds(ints(coords@), self.shape@));
            lemma_ravel_bound(ints(coords@), self.shape@);
        }
        let k = ravel_exec(&coords, &self.shape, &strides);
        Ok(self.data[k])
    }
}

/// `data` with row `k` (of `rs` elements) overwritten from its start by `values`, as far as
/// both reach.
pub open spec fn row_replaced<T>(data: Seq<T>, k: int, rs: int, values: Seq<T>) -> Seq<T> {
    let w = if values.len() < rs { values.len() as int } else { rs };
    Seq::new(data.len(), |i: int| if k * rs <= i < k * rs + w { values[i - k * rs] } else { data[i] })
}

/// Reading back a row that was written with at least a row's worth of values gives the first
/// values; the other rows are left as they were.
pub proof fn law_row_write_read<T>(data: Seq<T>, k: int, rs: int, values: Seq<T>)
    requires
        0 <= k,
        0 <= rs,
        (k + 1) * rs <= data.len(),
        values.len() >= rs,
    ensures
        row_replaced(data, k, rs, values).len() == data.len(),
        row_replaced(data, k, rs, values).subrange(k * rs, (k + 1) * rs) == values.take(rs),
        forall|j: int| 0 <= j < data.len() && !(k * rs <= j < (k + 1) * rs) ==>
            #[trigger] row_replaced(data, k, rs, values)[j] == data[j],
{
    assert((k + 1) * rs == k * rs + rs) by (nonlinear_arith);
    assert(row_replaced(data, k, rs, values).subrange(k * rs, (k + 1) * rs) =~= values.take(rs));
}

impl<T: Copy> NdArray<T> {
    /// Row `index` along the first axis (negative counts from the end), as an array of the
    /// remaining dimensions; an array without dimensions comes back whole.
    pub fn get_row(&self, index: isize) -> (r: Result<NdArray<T>, ArrayError>)
        requires
            self.wf(),
            dims_fit(self.shape@),
        ensures
            self.shape@.len() == 0 ==> (r matches Ok(o) && o.shape@ == self.shape@ && o.data@ == self.data@),
            self.shape@.len() > 0 ==> (r is Ok <==> axis_ok(index as int, self.shape@[0] as int)),
            r is Err ==> r == Err::<NdArray<T>, ArrayError>(ArrayError::IndexOutOfBounds),
            self.shape@.len() > 0 && r is Ok ==> (r matches Ok(o) && {
                let k = norm_axis(index as int, self.shape@[0] as int);
                let rs = post_of(self.shape@, 0) as int;
                &&& o.wf()
                &&& o.shape@ == self.shape@.skip(1)
                &&& o.data@ == self.data@.subrange(k * rs, (k + 1) * rs)
            }),
    {
        if self.shape.len() == 0 {
            return Ok(NdArray { data: copy_vec(&self.data), shape: copy_vec(&self.shape) });
        }
        let n = self.shape[0];
        let k = match normalize_axis(index, n) {
            None => {
                return Err(ArrayError::IndexOutOfBounds);
            },
            Some(v) => v,
        };
        let len = self.shape.len();
        let rs = sub_prod(&self.shape, 1, len);
        let total = self.data.len();
        proof {
            assert(self.shape@.subrange(1, len as int) =~= self.shape@.skip(1));
            lemma_axis_sizes(self.shape@, 0);
            assert(pre_of(self.shape@, 0) == 1) by {
                assert(self.shape@.take(0) =~= Seq::<usize>::empty());
            }
            assert(post_of(self.shape@, 0) == rs);
            assert(self.data@.len() == n * rs) by (nonlinear_arith)
                requires
                    self.data@.len() == pre_of(self.shape@, 0) * (n as nat) * post_of(self.shape@, 0),
                    pre_of(self.shape@, 0) == 1,
                    post_of(self.shape@, 0) == rs;
            assert((k + 1) * rs <= n * rs) by (nonlinear_arith)
                requires k < n;
            assert((k + 1) * rs == k * rs + rs) by (nonlinear_arith);
            assert(k * rs + rs <= self.data@.len());
        }
        let start = k * rs;
        let mut data: Vec<T> = Vec::new();
        let mut j: usize = 0;
        while j < rs
            invariant
                0 <= j <= rs,
                start + rs <= self.data@.len(),
                total == self.data@.len(),
                data@ =~= self.data@.subrange(start as int, start + j),
            decreases rs - j,
        {
            data.push(self.data[start + j]);
            j = j + 1;
        }
        let mut shape: Vec<usize> = Vec::new();
        let mut d: usize = 1;
        while d < len
            invariant
                1 <= d <= len,
                len == self.shape@.len(),
                shape@ =~= self.shape@.subrange(1, d as int),
            decreases len - d,
        {
            shape.push(self.shape[d]);
            d = d + 1;
        }
        proof {
            assert(shape@ =~= self.shape@.skip(1));
        }
        Ok(NdArray { data, shape })
    }

    /// Writes `values` over row `index` along the first axis (negative counts from the end),
    /// from its start: as many as the row holds, or fewer when `values` is shorter.
    pub fn set_row(&mut self, index: isize, values: &Vec<T>) -> (r: Result<(), ArrayError>)
        requires
            old(self).wf(),
            dims_fit(old(self).shape@),
        ensures
            final(self).shape@ == old(self).shape@,
            old(self).shape@.len() == 0 ==> r == Err::<(), ArrayError>(ArrayError::InvalidDimension),
            old(self).shape@.len() > 0 ==> (r is Ok <==> axis_ok(index as int, old(self).shape@[0] as int)),
            old(self).shape@.len() > 0 && r is Err ==> r == Err::<(), ArrayError>(ArrayError::IndexOutOfBounds),
            r is Err ==> final(self).data@ == old(self).data@,
            r is Ok ==> final(self).data@ == row_replaced(old(self).data@,
                norm_axis(index as int, old(self).shape@[0] as int), post_of(old(self).shape@, 0) as int, values@),
    {
        if self.shape.len() == 0 {
            return Err(ArrayError::InvalidDimension);
        }
        let n = self.shape[0];
        let k = match normalize_axis(index, n) {
            None => {
                return Err(ArrayError::IndexOutOfBounds);
            },
            Some(v) => v,
        };
        let len = self.shape.len();
        let rs = sub_prod(&self.shape, 1, len);
        let total = self.data.len();
        proof {
            assert(self.shape@.subrange(1, len as int) =~= self.shape@.skip(1));
            lemma_axis_sizes(self.shape@, 0);
            assert(pre_of(self.shape@, 0) == 1) by {
                assert(self.shape@.take(0) =~= Seq::<usize>::empty());
            }
            assert(post_of(self.shape@, 0) == rs);
            assert(self.data@.len() == n * rs) by (nonlinear_arith)
                requires
                    self.data@.len() == pre_of(self.shape@, 0) * (n as nat) * post_of(self.shape@, 0),
                    pre_of(self.shape@, 0) == 1,
                    post_of(self.shape@, 0) == rs;
            assert((k + 1) * rs <= n * rs) by (nonlinear_arith)
                requires k < n;
            assert((k + 1) * rs == k * rs + rs) by (nonlinear_arith);
            assert(k * rs + rs <= self.data@.len());
        }
        let start = k * rs;
        let w = if values.len() < rs { values.len() } else { rs };
        let ghost orig = self.data@;
        let mut j: usize = 0;
        while j < w
            invariant
                0 <= j <= w,
                w <= rs,
                w <= values@.len(),
                start + rs <= orig.len(),
                total == orig.len(),
                self.shape@ == old(self).shape@,
                self.data@.len() == orig.len(),
                forall|i: int| 0 <= i < orig.len() ==> #[trigger] self.data@[i] ==
                    if start <= i < start + j { values@[i - start] } else { orig[i] },
            decreases w - j,
        {
            self.data.set(start + j, values[j]);
            j = j + 1;
        }
        proof {
            assert(self.data@ =~= row_replaced(orig, k as int, rs as int, values@));
        }
        Ok(())
    }
}

} // verus!

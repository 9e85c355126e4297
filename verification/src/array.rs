use vstd::prelude::*;
use crate::index_math::{flat3, lemma_flat3};
use crate::layout::{copy_vec, gather_axis, gathered};
use crate::shape::{dims_fit, lemma_dims_fit_axis, lemma_prod_axis, post_of, pre_of, prod, sub_prod};

verus! {

/// A dense n-dimensional array: its elements in C (row-major) order and its dimensions.
pub struct NdArray<T> {
    pub data: Vec<T>,
    pub shape: Vec<usize>,
}

/// Why an array operation was refused.
#[derive(Clone, Copy, Debug, PartialEq, Eq, Structural)]
pub enum ArrayError {
    /// An axis argument does not name a dimension of the array.
    AxisOutOfBounds,
    /// An index lies outside the dimension it indexes.
    IndexOutOfBounds,
    /// The input shapes cannot be combined or the requested shape does not fit the data.
    ShapeMismatch,
    /// A dimension of a requested shape is not a positive size.
    InvalidDimension,
    /// More than one dimension of a requested shape was left to be inferred.
    MultipleUnknownDimensions,
    /// The operation needs at least one array.
    EmptyInput,
    /// The operation needs an array with more dimensions.
    TooFewDimensions,
    /// Two axis arguments must differ but do not.
    SameAxis,
    /// A slice step of zero was given.
    ZeroStep,
    /// An argument has a value that the operation does not accept.
    InvalidArgument,
    /// The result would hold more elements than can be represented.
    TooLarge,
    /// The element type is not one the operation can read.
    UnsupportedType,
    /// The input ends before the data it announces.
    Truncated,
}

impl<T> NdArray<T> {
    /// The element buffer holds exactly as many elements as the shape describes.
    pub open spec fn wf(&self) -> bool {
        self.data@.len() == prod(self.shape@)
    }
}

/// An axis given as in NumPy: negative values count from the end.
pub open spec fn norm_axis(ax: int, ndim: int) -> int {
    if ax < 0 { ax + ndim } else { ax }
}

/// The axis names one of `ndim` dimensions.
pub open spec fn axis_ok(ax: int, ndim: int) -> bool {
    0 <= norm_axis(ax, ndim) < ndim
}

/// An axis `ax` with `-ndim <= ax < ndim` names a dimension: `ax` itself when it is not
/// negative, `ax + ndim`, counted from the last, when it is; any other value names none.
pub proof fn law_axis_counts_from_end(ax: int, ndim: int)
    requires
        ndim >= 0,
    ensures
        axis_ok(ax, ndim) <==> -ndim <= ax < ndim,
        0 <= ax < ndim ==> norm_axis(ax, ndim) == ax,
        -ndim <= ax < 0 ==> norm_axis(ax, ndim) == ax + ndim,
{
}

/// Resolves a possibly negative axis against `ndim` dimensions.
pub fn normalize_axis(ax: isize, ndim: usize) -> (r: Option<usize>)
    ensures
        r is Some <==> axis_ok(ax as int, ndim as int),
        r matches Some(v) ==> v as int == norm_axis(ax as int, ndim as int),
{
    if ax < 0 {
        let neg: usize = ((0 - (ax + 1)) as usize) + 1;
        if neg <= ndim {
            Some(ndim - neg)
        } else {
            None
        }
    } else {
        let a = ax as usize;
        if a < ndim {
            Some(a)
        } else {
            None
        }
    }
}

/// The `[pre, n, post]` view of a shape around axis `ax`.
pub fn axis_layout(shape: &Vec<usize>, ax: usize) -> (r: (usize, usize, usize))
    requires
        ax < shape@.len(),
        dims_fit(shape@),
    ensures
        r.0 == pre_of(shape@, ax as int),
        r.1 == shape@[ax as int],
        r.2 == post_of(shape@, ax as int),
        prod(shape@) == r.0 * r.1 * r.2,
{
    let len = shape.len();
    let pre = sub_prod(shape, 0, ax);
    let post = sub_prod(shape, ax + 1, len);
    proof {
        assert(shape@.subrange(0, ax as int) =~= shape@.take(ax as int));
        assert(shape@.subrange(ax as int + 1, shape@.len() as int) =~= shape@.skip(ax as int + 1));
        lemma_prod_axis(shape@, ax as int);
    }
    (pre, shape[ax], post)
}

/// The shape with dimension `ax` replaced keeps the products before and after `ax`.
pub proof fn lemma_update_axis(s: Seq<usize>, ax: int, m: usize)
    requires
        0 <= ax < s.len(),
    ensures
        pre_of(s.update(ax, m), ax) == pre_of(s, ax),
        post_of(s.update(ax, m), ax) == post_of(s, ax),
        prod(s.update(ax, m)) == pre_of(s, ax) * (m as nat) * post_of(s, ax),
{
    assert(s.update(ax, m).take(ax) =~= s.take(ax));
    assert(s.update(ax, m).skip(ax + 1) =~= s.skip(ax + 1));
    lemma_prod_axis(s.update(ax, m), ax);
}

/// Selects, along axis `ax`, the positions listed in `sel` (in that order).
pub fn gather_along<T: Copy>(a: &NdArray<T>, ax: usize, sel: &Vec<usize>) -> (r: NdArray<T>)
    requires
        a.wf(),
        dims_fit(a.shape@),
        ax < a.shape@.len(),
        forall|k: int| 0 <= k < sel@.len() ==> sel@[k] < a.shape@[ax as int],
        pre_of(a.shape@, ax as int) * sel@.len() * post_of(a.shape@, ax as int) <= usize::MAX,
    ensures
        r.wf(),
        r.shape@ == a.shape@.update(ax as int, sel@.len() as usize),
        r.data@ == gathered(a.data@, pre_of(a.shape@, ax as int) as int, a.shape@[ax as int] as int,
            post_of(a.shape@, ax as int) as int, sel@),
{
    let (pre, n, post) = axis_layout(&a.shape, ax);
    let data = gather_axis(&a.data, pre, n, post, sel);
    let mut shape = copy_vec(&a.shape);
    shape.set(ax, sel.len());
    proof {
        lemma_update_axis(a.shape@, ax as int, sel@.len() as usize);
    }
    NdArray { data, shape }
}

/// The buffer size is `pre * n * post` around any axis.
pub proof fn lemma_axis_sizes(s: Seq<usize>, ax: int)
    requires
        0 <= ax < s.len(),
    ensures
        prod(s) == pre_of(s, ax) * (s[ax] as nat) * post_of(s, ax),
{
    lemma_prod_axis(s, ax);
}

/// `shift` reduced into `0..n`, as `rem_euclid` does.
fn reduce_shift(shift: isize, n: usize) -> (s: usize)
    requires
        n > 0,
    ensures
        s < n,
        s as int == (shift as int) % (n as int),
{
    if shift >= 0 {
        (shift as usize) % n
    } else {
        let t: usize = (0 - (shift + 1)) as usize;
        let neg: usize = t % n;
        proof {
            let q = (t as int) / (n as int);
            vstd::arithmetic::div_mod::lemma_fundamental_div_mod(t as int, n as int);
            vstd::arithmetic::div_mod::lemma_mod_bound(t as int, n as int);
            assert(shift as int == (n as int) * (-q - 1) + (n as int - 1 - neg as int)) by (nonlinear_arith)
                requires t as int == (n as int) * q + neg as int, shift as int == -(t as int) - 1;
            vstd::arithmetic::div_mod::lemma_fundamental_div_mod_converse(
                shift as int, n as int, -q - 1, n as int - 1 - neg as int);
        }
        n - 1 - neg
    }
}

/// Rolls the elements along `axis` (axis 0 when none is given) by `shift` positions:
/// the element at position `k` of the result comes from position `k - shift` (cyclically).
pub fn roll<T: Copy>(a: &NdArray<T>, shift: isize, axis: Option<isize>) -> (r: NdArray<T>)
    requires
        a.wf(),
        dims_fit(a.shape@),
        a.shape@.len() > 0 ==> axis_ok(
            match axis { Some(x) => x as int, None => 0 },
            a.shape@.len() as int,
        ),
        a.shape@.len() > 0 ==> a.shape@[norm_axis(match axis { Some(x) => x as int, None => 0 }, a.shape@.len() as int)] > 0,
    ensures
        r.wf(),
        r.shape@ == a.shape@,
        a.shape@.len() == 0 ==> r.data@ == a.data@,
        a.shape@.len() > 0 ==> {
            let ax = norm_axis(match axis { Some(x) => x as int, None => 0 }, a.shape@.len() as int);
            let n = a.shape@[ax] as int;
            let post = post_of(a.shape@, ax) as int;
            forall|o: int, k: int, i: int|
                0 <= o < pre_of(a.shape@, ax) && 0 <= k < n && 0 <= i < post ==> #[trigger] r.data@[flat3(o, k, i, n, post)]
                    == a.data@[flat3(o, (k - shift) % n, i, n, post)]
        },
{
    let ndim = a.shape.len();
    if ndim == 0 {
        return NdArray { data: copy_vec(&a.data), shape: copy_vec(&a.shape) };
    }
    let ax_raw: isize = match axis {
        Some(x) => x,
        None => 0,
    };
    let ax = normalize_axis(ax_raw, ndim).unwrap();
    let (pre, n, post) = axis_layout(&a.shape, ax);
    let s = reduce_shift(shift, n);
    let mut sel: Vec<usize> = Vec::new();
    let mut k: usize = 0;
    while k < n
        invariant
            0 <= k <= n,
            n > 0,
            s < n,
            s as int == (shift as int) % (n as int),
            sel@.len() == k,
            forall|k2: int| 0 <= k2 < k ==> #[trigger] sel@[k2] < n && sel@[k2] as int == (k2 - shift) % (n as int),
        decreases n - k,
    {
        let src = if k >= s { k - s } else { k + (n - s) };
        proof {
            vstd::arithmetic::div_mod::lemma_sub_mod_noop_right(k as int, shift as int, n as int);
            if k >= s {
                vstd::arithmetic::div_mod::lemma_small_mod((k - s) as nat, n as nat);
            } else {
                vstd::arithmetic::div_mod::lemma_mod_add_multiples_vanish(k as int - s as int, n as int);
                vstd::arithmetic::div_mod::lemma_small_mod((k + n - s) as nat, n as nat);
            }
        }
        sel.push(src);
        k = k + 1;
    }
    let _len = a.data.len();
    let data = gather_axis(&a.data, pre, n, post, &sel);
    NdArray { data, shape: copy_vec(&a.shape) }
}

} // verus!

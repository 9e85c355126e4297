use vstd::prelude::*;
use crate::array::{ArrayError, NdArray};
use crate::layout::copy_vec;
use crate::shape::{dims_fit, lemma_prod_zero, prod};
use crate::strides::{flat_to_multi, unravel, unravel_coord};

verus! {

/// The first dimension of a choice of `clen` dimensions that a target of `nd` dimensions reads:
/// the dimensions are aligned at the end, and leading ones beyond the target are never read.
pub open spec fn first_read_dim(clen: int, nd: int) -> int {
    if clen > nd { clen - nd } else { 0 }
}

/// Where a broadcast choice is read for the target multi-index `m`, after the first `d`
/// target dimensions, as (position, stride): dimension `a_dim` of the target reads choice
/// dimension `a_dim - (nd - cshape.len())`, clamped into it (0 for a dimension of size 1 or
/// absent), with strides growing from the first read dimension on.
pub open spec fn choice_read(m: Seq<int>, nd: int, cshape: Seq<usize>, d: int) -> (int, int)
    decreases d,
{
    if d <= 0 {
        (0, 1)
    } else {
        let (f, st) = choice_read(m, nd, cshape, d - 1);
        let cd = (d - 1) - (nd - cshape.len());
        if cd < 0 {
            (f, st)
        } else {
            let csz = cshape[cd] as int;
            let ci = if csz == 1 { 0 } else if m[d - 1] < csz { m[d - 1] } else { csz - 1 };
            (f + ci * st, st * csz)
        }
    }
}

/// The element that `choose_rs` puts at flat position `i`: from the choice that `a` names there,
/// its only element, or the element at `i` when it has the shape of `a`, or else the element
/// at the broadcast position (`zero` when the choice holds no element there).
pub open spec fn chosen_value<T>(a: NdArray<usize>, choices: Seq<NdArray<T>>, zero: T, i: int) -> T {
    let c = choices[a.data@[i] as int];
    if c.data@.len() == 1 {
        c.data@[0]
    } else if c.shape@ == a.shape@ {
        c.data@[i]
    } else {
        let f = choice_read(unravel(i, a.shape@), a.shape@.len() as int, c.shape@, a.shape@.len() as int).0;
        if f < c.data@.len() { c.data@[f] } else { zero }
    }
}

/// The choice named at position `i` can be read there: where it is broadcast, every dimension
/// that is read is nonempty.
pub open spec fn choice_readable<T>(a: NdArray<usize>, choices: Seq<NdArray<T>>, i: int) -> bool {
    let c = choices[a.data@[i] as int];
    let nd = a.shape@.len() as int;
    c.data@.len() == 1 || c.shape@ == a.shape@
        || forall|cd: int| first_read_dim(c.shape@.len() as int, nd) <= cd < c.shape@.len() ==> #[trigger] c.shape@[cd] > 0
}

proof fn lemma_choice_read(m: Seq<int>, nd: int, cshape: Seq<usize>, d: int)
    requires
        0 <= d <= nd,
        m.len() == nd,
        forall|e: int| 0 <= e < nd ==> #[trigger] m[e] >= 0,
        forall|cd: int| first_read_dim(cshape.len() as int, nd) <= cd < cshape.len() ==> #[trigger] cshape[cd] > 0,
    ensures
        ({
            let lo = first_read_dim(cshape.len() as int, nd);
            let hi = if d - (nd - cshape.len()) > lo { d - (nd - cshape.len()) } else { lo };
            let (f, st) = choice_read(m, nd, cshape, d);
            &&& lo <= hi <= cshape.len()
            &&& st == prod(cshape.subrange(lo, hi))
            &&& 0 <= f < st
        }),
    decreases d,
{
    let lo = first_read_dim(cshape.len() as int, nd);
    if d > 0 {
        lemma_choice_read(m, nd, cshape, d - 1);
        let (f, st) = choice_read(m, nd, cshape, d - 1);
        let cd = (d - 1) - (nd - cshape.len());
        if cd >= 0 {
            let csz = cshape[cd] as int;
            let ci = if csz == 1 { 0 } else if m[d - 1] < csz { m[d - 1] } else { csz - 1 };
            assert(cshape.subrange(lo, cd + 1).drop_last() =~= cshape.subrange(lo, cd));
            assert(f + ci * st < st * csz) by (nonlinear_arith)
                requires 0 <= f < st, 0 <= ci < csz;
            assert(0 <= f + ci * st) by (nonlinear_arith)
                requires 0 <= f, 0 <= ci, st >= 0;
        }
    } else {
        assert(cshape.subrange(lo, lo).len() == 0);
    }
}

/// Each of the first `upto` entries of `a` names one of `n` choices.
pub open spec fn all_named(a: Seq<usize>, n: int, upto: int) -> bool {
    forall|i2: int| 0 <= i2 < upto ==> #[trigger] a[i2] < n
}

/// Builds an array of the shape of `a` whose element at each position comes from the choice
/// that `a` names there (see `chosen_value`). No choices, or an index that names none, is
/// refused.
pub fn choose_rs<T: Copy>(a: &NdArray<usize>, choices: &Vec<NdArray<T>>, zero: T) -> (r: Result<NdArray<T>, ArrayError>)
    requires
        a.wf(),
        dims_fit(a.shape@),
        forall|c: int| 0 <= c < choices@.len() ==> (#[trigger] choices@[c]).wf() && dims_fit(choices@[c].shape@),
        forall|i: int| 0 <= i < a.data@.len() && all_named(a.data@, choices@.len() as int, i + 1)
            ==> #[trigger] choice_readable(*a, choices@, i),
    ensures
        choices@.len() == 0 ==> r == Err::<NdArray<T>, ArrayError>(ArrayError::EmptyInput),
        choices@.len() > 0 && !all_named(a.data@, choices@.len() as int, a.data@.len() as int)
            ==> r == Err::<NdArray<T>, ArrayError>(ArrayError::IndexOutOfBounds),
        choices@.len() > 0 && all_named(a.data@, choices@.len() as int, a.data@.len() as int) ==> (r matches Ok(t) && {
            &&& t.wf()
            &&& t.shape@ == a.shape@
            &&& forall|i: int| 0 <= i < a.data@.len() ==> #[trigger] t.data@[i] == chosen_value(*a, choices@, zero, i)
        }),
{
    let nc = choices.len();
    if nc == 0 {
        return Err(ArrayError::EmptyInput);
    }
    let nd = a.shape.len();
    let total = a.data.len();
    let mut out: Vec<T> = Vec::new();
    let mut i: usize = 0;
    while i < total
        invariant
            0 <= i <= total,
            total == a.data@.len(),
            nc == choices@.len(),
            nd == a.shape@.len(),
            a.wf(),
            dims_fit(a.shape@),
            forall|c: int| 0 <= c < choices@.len() ==> (#[trigger] choices@[c]).wf() && dims_fit(choices@[c].shape@),
            forall|i2: int| 0 <= i2 < a.data@.len() && all_named(a.data@, choices@.len() as int, i2 + 1)
                ==> #[trigger] choice_readable(*a, choices@, i2),
            nc > 0,
            all_named(a.data@, nc as int, i as int),
            out@.len() == i,
            forall|i2: int| 0 <= i2 < i ==> #[trigger] out@[i2] == chosen_value(*a, choices@, zero, i2),
        decreases total - i,
    {
        let idx = a.data[i];
        if idx >= nc {
            return Err(ArrayError::IndexOutOfBounds);
        }
        assert(all_named(a.data@, nc as int, i + 1));
        assert(choice_readable(*a, choices@, i as int));
        let c = &choices[idx];
        let clen = c.data.len();
        let v: T = if clen == 1 {
            c.data[0]
        } else if crate::joining::vec_eq_usize(&c.shape, &a.shape) {
            c.data[i]
        } else {
            proof {
                assert forall|d: int| 0 <= d < a.shape@.len() implies #[trigger] a.shape@[d] > 0 by {
                    if a.shape@[d] == 0 {
                        lemma_prod_zero(a.shape@, d);
                    }
                }
            }
            let multi = flat_to_multi(i, &a.shape);
            let ghost m = unravel(i as int, a.shape@);
            assert forall|e: int| 0 <= e < nd implies #[trigger] m[e] >= 0 && m[e] == multi@[e] as int by {
                assert(multi@[e] as int == unravel_coord(i as int, a.shape@, e));
            }
            let cl = c.shape.len();
            let mut flat: usize = 0;
            let mut stride: usize = 1;
            let mut ad: usize = 0;
            while ad < nd
                invariant
                    0 <= ad <= nd,
                    nd == a.shape@.len(),
                    cl == c.shape@.len(),
                    multi@.len() == nd,
                    m.len() == nd,
                    forall|e: int| 0 <= e < nd ==> #[trigger] m[e] >= 0 && m[e] == multi@[e] as int,
                    dims_fit(c.shape@),
                    forall|cd: int| first_read_dim(cl as int, nd as int) <= cd < cl ==> #[trigger] c.shape@[cd] > 0,
                    (flat as int, stride as int) == choice_read(m, nd as int, c.shape@, ad as int),
                decreases nd - ad,
            {
                proof {
                    lemma_choice_read(m, nd as int, c.shape@, ad as int + 1);
                    let lo = first_read_dim(cl as int, nd as int);
                    let hi = if ad + 1 - (nd - cl) > lo { ad + 1 - (nd - cl) } else { lo };
                    assert(prod(c.shape@.subrange(lo, hi)) <= usize::MAX);
                }
                let reads: bool = if cl >= nd { true } else { ad >= nd - cl };
                if reads {
                    let cd = if cl >= nd { ad + (cl - nd) } else { ad - (nd - cl) };
                    let csz = c.shape[cd];
                    let ci: usize = if csz == 1 {
                        0
                    } else if multi[ad] < csz {
                        multi[ad]
                    } else {
                        csz - 1
                    };
                    flat = flat + ci * stride;
                    stride = stride * csz;
                }
                ad = ad + 1;
            }
            if flat < clen {
                c.data[flat]
            } else {
                zero
            }
        };
        out.push(v);
        i = i + 1;
    }
    Ok(NdArray { data: out, shape: copy_vec(&a.shape) })
}

} // verus!

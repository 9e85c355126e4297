use vstd::prelude::*;
use crate::array::{ArrayError, NdArray};
use crate::layout::copy_vec;
use crate::shape::{dims_fit, lemma_prod_zero, prod, shape_size};
use crate::strides::{flat_to_multi, in_bounds, lemma_ravel_bound, lemma_ravel_unravel, lemma_unravel_ravel, ravel, unravel};

verus! {

/// Dimensions `n` long, all one but `v` at position `i`.
pub open spec fn unit_shape(n: int, i: int, v: usize) -> Seq<usize> {
    Seq::new(n as nat, |d: int| if d == i { v } else { 1usize })
}

/// A shape of ones with one other dimension has that dimension as its size.
pub proof fn lemma_prod_unit(n: int, i: int, v: usize)
    requires
        0 <= n,
    ensures
        prod(unit_shape(n, i, v)) == if 0 <= i < n { v as nat } else { 1 },
    decreases n,
{
    if n > 0 {
        lemma_prod_unit(n - 1, i, v);
        assert(unit_shape(n, i, v).drop_last() =~= unit_shape(n - 1, i, v));
    }
}

/// Each sequence as an array with its own axis: array `i` has all dimensions one but
/// dimension `i`, which holds its elements (an open grid).
pub fn ix_rs<T: Copy>(arrays: &Vec<Vec<T>>) -> (r: Vec<NdArray<T>>)
    ensures
        r@.len() == arrays@.len(),
        forall|i: int| 0 <= i < arrays@.len() ==> {
            &&& (#[trigger] r@[i]).data@ == arrays@[i]@
            &&& r@[i].shape@ == unit_shape(arrays@.len() as int, i, arrays@[i]@.len() as usize)
            &&& r@[i].wf()
        },
{
    let n = arrays.len();
    let mut r: Vec<NdArray<T>> = Vec::new();
    let mut i: usize = 0;
    while i < n
        invariant
            0 <= i <= n,
            n == arrays@.len(),
            r@.len() == i,
            forall|i2: int| 0 <= i2 < i ==> {
                &&& (#[trigger] r@[i2]).data@ == arrays@[i2]@
                &&& r@[i2].shape@ == unit_shape(n as int, i2, arrays@[i2]@.len() as usize)
                &&& r@[i2].wf()
            },
        decreases n - i,
    {
        let size = arrays[i].len();
        let mut shape: Vec<usize> = Vec::new();
        let mut d: usize = 0;
        while d < n
            invariant
                0 <= d <= n,
                i < n,
                shape@ =~= unit_shape(n as int, i as int, size).take(d as int),
            decreases n - d,
        {
            shape.push(if d == i { size } else { 1 });
            d = d + 1;
        }
        assert(shape@ =~= unit_shape(n as int, i as int, size));
        proof {
            lemma_prod_unit(n as int, i as int, size);
        }
        r.push(NdArray { data: copy_vec(&arrays[i]), shape });
        i = i + 1;
    }
    r
}

/// One index array per dimension: array `d` holds `0, 1, ..., shape[d] - 1`.
pub fn _arange_arrays(shape: &Vec<usize>) -> (r: Vec<NdArray<usize>>)
    ensures
        r@.len() == shape@.len(),
        forall|d: int| 0 <= d < shape@.len() ==> {
            &&& (#[trigger] r@[d]).shape@ == seq![shape@[d]]
            &&& r@[d].wf()
            &&& forall|k: int| 0 <= k < shape@[d] ==> #[trigger] r@[d].data@[k] == k
        },
{
    let mut r: Vec<NdArray<usize>> = Vec::new();
    let mut d: usize = 0;
    while d < shape.len()
        invariant
            0 <= d <= shape@.len(),
            r@.len() == d,
            forall|d2: int| 0 <= d2 < d ==> {
                &&& (#[trigger] r@[d2]).shape@ == seq![shape@[d2]]
                &&& r@[d2].wf()
                &&& forall|k: int| 0 <= k < shape@[d2] ==> #[trigger] r@[d2].data@[k] == k
            },
        decreases shape@.len() - d,
    {
        let dim = shape[d];
        let mut data: Vec<usize> = Vec::new();
        let mut k: usize = 0;
        while k < dim
            invariant
                0 <= k <= dim,
                data@.len() == k,
                forall|k2: int| 0 <= k2 < k ==> #[trigger] data@[k2] == k2,
            decreases dim - k,
        {
            data.push(k);
            k = k + 1;
        }
        let mut sh: Vec<usize> = Vec::new();
        sh.push(dim);
        proof {
            crate::shape::lemma_prod_single(sh@);
            assert(sh@ =~= seq![dim]);
        }
        r.push(NdArray { data, shape: sh });
        d = d + 1;
    }
    r
}

/// Whether the first two axes of a mesh grid follow the matrix (`ij`) or the Cartesian (`xy`)
/// convention.
#[derive(Clone, Copy, Debug, PartialEq, Eq, Structural)]
pub enum MeshIndexing {
    /// Cartesian: the first two dimensions are swapped.
    XY,
    /// Matrix: dimension `i` follows input `i`.
    IJ,
}

/// The axis along which input `i` of `n` varies in a mesh grid.
pub open spec fn mesh_axis(n: int, indexing: MeshIndexing, i: int) -> int {
    if indexing == MeshIndexing::XY && n >= 2 && i <= 1 { 1 - i } else { i }
}

/// Dimensions of a mesh grid over inputs of the given lengths.
pub open spec fn mesh_dims(lens: Seq<usize>, indexing: MeshIndexing) -> Seq<usize> {
    Seq::new(lens.len(), |d: int| lens[mesh_axis(lens.len() as int, indexing, d)])
}

/// Lengths of the inputs.
pub open spec fn lens_of<T>(arrays: Seq<NdArray<T>>) -> Seq<usize> {
    Seq::new(arrays.len(), |i: int| arrays[i].data@.len() as usize)
}

/// Coordinate matrices of one-dimensional inputs: result `i` has the grid's dimensions and at
/// every position `m` holds element `m[mesh_axis(i)]` of input `i`. No input, or an input that
/// is not one-dimensional, is refused.
pub fn meshgrid<T: Copy>(arrays: &Vec<NdArray<T>>, indexing: MeshIndexing) -> (r: Result<Vec<NdArray<T>>, ArrayError>)
    requires
        forall|i: int| 0 <= i < arrays@.len() ==> (#[trigger] arrays@[i]).wf(),
        dims_fit(mesh_dims(lens_of(arrays@), indexing)),
    ensures
        arrays@.len() == 0 ==> r == Err::<Vec<NdArray<T>>, ArrayError>(ArrayError::EmptyInput),
        arrays@.len() > 0 && (exists|i: int| 0 <= i < arrays@.len() && (#[trigger] arrays@[i]).shape@.len() != 1)
            ==> r == Err::<Vec<NdArray<T>>, ArrayError>(ArrayError::InvalidDimension),
        r is Ok <==> arrays@.len() > 0 && forall|i: int| 0 <= i < arrays@.len() ==> (#[trigger] arrays@[i]).shape@.len() == 1,
        r matches Ok(v) ==> {
            let g = mesh_dims(lens_of(arrays@), indexing);
            &&& v@.len() == arrays@.len()
            &&& forall|i: int| 0 <= i < v@.len() ==> (#[trigger] v@[i]).shape@ == g && v@[i].wf()
            &&& forall|i: int, m: Seq<int>| 0 <= i < v@.len() && in_bounds(m, g) ==>
                #[trigger] v@[i].data@[ravel(m, g)] == arrays@[i].data@[m[mesh_axis(g.len() as int, indexing, i)]]
        },
{
    let n = arrays.len();
    if n == 0 {
        return Err(ArrayError::EmptyInput);
    }
    let mut lens: Vec<usize> = Vec::new();
    let mut i: usize = 0;
    while i < n
        invariant
            0 <= i <= n,
            n == arrays@.len(),
            lens@ =~= lens_of(arrays@).take(i as int),
            forall|i2: int| 0 <= i2 < i ==> (#[trigger] arrays@[i2]).shape@.len() == 1,
        decreases n - i,
    {
        if arrays[i].shape.len() != 1 {
            return Err(ArrayError::InvalidDimension);
        }
        lens.push(arrays[i].data.len());
        i = i + 1;
    }
    assert(lens@ =~= lens_of(arrays@));
    let ghost g = mesh_dims(lens@, indexing);
    let mut dims: Vec<usize> = Vec::new();
    let mut d: usize = 0;
    while d < n
        invariant
            0 <= d <= n,
            n == lens@.len(),
            g == mesh_dims(lens@, indexing),
            dims@ =~= g.take(d as int),
        decreases n - d,
    {
        let src: usize = if indexing == MeshIndexing::XY && n >= 2 && d <= 1 { 1 - d } else { d };
        dims.push(lens[src]);
        d = d + 1;
    }
    assert(dims@ =~= g);
    let total = shape_size(&dims);
    let mut out: Vec<NdArray<T>> = Vec::new();
    let mut i: usize = 0;
    while i < n
        invariant
            0 <= i <= n,
            n == arrays@.len(),
            forall|i2: int| 0 <= i2 < n ==> (#[trigger] arrays@[i2]).wf(),
            forall|i2: int| 0 <= i2 < n ==> (#[trigger] arrays@[i2]).shape@.len() == 1,
            lens@ == lens_of(arrays@),
            g == mesh_dims(lens@, indexing),
            dims@ == g,
            total == prod(g),
            out@.len() == i,
            forall|i2: int| 0 <= i2 < i ==> (#[trigger] out@[i2]).shape@ == g && out@[i2].wf(),
            forall|i2: int, m: Seq<int>| 0 <= i2 < i && in_bounds(m, g) ==>
                #[trigger] out@[i2].data@[ravel(m, g)] == arrays@[i2].data@[m[mesh_axis(g.len() as int, indexing, i2)]],
        decreases n - i,
    {
        let ax: usize = if indexing == MeshIndexing::XY && n >= 2 && i <= 1 { 1 - i } else { i };
        let src = &arrays[i].data;
        let mut data: Vec<T> = Vec::new();
        let mut lin: usize = 0;
        while lin < total
            invariant
                0 <= lin <= total,
                i < n,
                n == g.len(),
                ax as int == mesh_axis(n as int, indexing, i as int),
                total == prod(g),
                dims@ == g,
                g == mesh_dims(lens@, indexing),
                lens@ == lens_of(arrays@),
                src@ == arrays@[i as int].data@,
                data@.len() == lin,
                forall|l: int| 0 <= l < lin ==> #[trigger] data@[l] == src@[unravel(l, g)[ax as int]],
            decreases total - lin,
        {
            proof {
                assert forall|j: int| 0 <= j < g.len() implies #[trigger] g[j] > 0 by {
                    if g[j] == 0 {
                        lemma_prod_zero(g, j);
                    }
                }
                lemma_ravel_unravel(lin as int, g);
            }
            let coords = flat_to_multi(lin, &dims);
            let k = coords[ax];
            proof {
                assert(unravel(lin as int, g)[ax as int] == k);
                assert(g[ax as int] == lens@[i as int]);
                assert(k < src@.len());
            }
            data.push(src[k]);
            lin = lin + 1;
        }
        proof {
            assert forall|m: Seq<int>| in_bounds(m, g) implies
                #[trigger] data@[ravel(m, g)] == arrays@[i as int].data@[m[mesh_axis(g.len() as int, indexing, i as int)]] by {
                lemma_ravel_bound(m, g);
                if g.len() == 0 {
                    assert(prod(g) == 1);
                }
                lemma_unravel_ravel(m, g);
            }
        }
        let ghost before = out@;
        out.push(NdArray { data, shape: copy_vec(&dims) });
        proof {
            assert forall|i2: int, m: Seq<int>| 0 <= i2 < i + 1 && in_bounds(m, g) implies
                #[trigger] out@[i2].data@[ravel(m, g)] == arrays@[i2].data@[m[mesh_axis(g.len() as int, indexing, i2)]] by {
                if i2 < i {
                    assert(out@[i2] == before[i2]);
                }
            }
        }
        i = i + 1;
    }
    Ok(out)
}

} // verus!

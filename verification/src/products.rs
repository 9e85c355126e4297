use vstd::prelude::*;
use crate::array::ArrayError;
use crate::shape::{dims_fit, prod, sub_prod};

verus! {

/// How the operands of a matrix product are read.
#[derive(Clone, Copy, Debug, PartialEq, Eq, Structural)]
pub enum ProductKind {
    /// Two vectors of equal length; the result is a scalar.
    Inner,
    /// A matrix times a vector.
    MatVec,
    /// A vector times a matrix.
    VecMat,
    /// A matrix times a matrix.
    MatMat,
    /// A stack of matrices, each times the same matrix.
    Batched,
}

/// The dimensions of a matrix product: `batch` products of an `m x n` matrix by an `n x p`
/// matrix (a vector operand counts as a matrix with one row or one column), and the shape of
/// the result.
pub struct ProductLayout {
    pub kind: ProductKind,
    pub batch: usize,
    pub m: usize,
    pub n: usize,
    pub p: usize,
    pub shape: Vec<usize>,
}

/// Position in the left operand of element `k` of row `i` of matrix `b` of the batch.
pub open spec fn lhs_offset(m: int, n: int, b: int, i: int, k: int) -> int {
    (b * m + i) * n + k
}

/// Position in the right operand of element `j` of row `k`.
pub open spec fn rhs_offset(p: int, k: int, j: int) -> int {
    k * p + j
}

/// Position in the result of element `j` of row `i` of matrix `b` of the batch.
pub open spec fn out_offset(m: int, p: int, b: int, i: int, j: int) -> int {
    (b * m + i) * p + j
}

/// The layout of the product of arrays of shapes `a` and `b` as (kind, batch, m, n, p, result
/// shape), or the error: operands whose inner dimensions differ do not match, and other
/// combinations of dimensions are not supported. Stacks of matrices are accepted only when
/// `batched` holds.
pub open spec fn product_plan(a: Seq<usize>, b: Seq<usize>, batched: bool)
    -> Result<(ProductKind, nat, int, int, int, Seq<usize>), ArrayError>
{
    if a.len() == 1 && b.len() == 1 {
        if a[0] != b[0] { Err(ArrayError::ShapeMismatch) }
        else { Ok((ProductKind::Inner, 1nat, 1int, a[0] as int, 1int, Seq::<usize>::empty())) }
    } else if a.len() == 2 && b.len() == 1 {
        if a[1] != b[0] { Err(ArrayError::ShapeMismatch) }
        else { Ok((ProductKind::MatVec, 1nat, a[0] as int, a[1] as int, 1int, seq![a[0]])) }
    } else if a.len() == 1 && b.len() == 2 {
        if a[0] != b[0] { Err(ArrayError::ShapeMismatch) }
        else { Ok((ProductKind::VecMat, 1nat, 1int, a[0] as int, b[1] as int, seq![b[1]])) }
    } else if a.len() == 2 && b.len() == 2 {
        if a[1] != b[0] { Err(ArrayError::ShapeMismatch) }
        else { Ok((ProductKind::MatMat, 1nat, a[0] as int, a[1] as int, b[1] as int, seq![a[0], b[1]])) }
    } else if batched && a.len() >= 3 && b.len() == 2 {
        let r = a.len() as int;
        if a[r - 1] != b[0] { Err(ArrayError::ShapeMismatch) }
        else {
            Ok((ProductKind::Batched, prod(a.subrange(0, r - 2)), a[r - 2] as int, a[r - 1] as int, b[1] as int,
                a.subrange(0, r - 2) + seq![a[r - 2], b[1]]))
        }
    } else {
        Err(ArrayError::InvalidArgument)
    }
}

/// The inputs on which the product can be carried out: the result fits in memory, and a stack
/// of more than three dimensions is read only through its second dimension, so its first
/// dimension must be 1 whenever any element is computed.
pub open spec fn product_supported(a: Seq<usize>, b: Seq<usize>, batched: bool) -> bool {
    match product_plan(a, b, batched) {
        Ok((kind, batch, m, n, p, shape)) => {
            &&& batch * m * p <= usize::MAX
            &&& (kind == ProductKind::Batched && a.len() >= 4 && batch * m * n * p > 0 ==> a.len() == 4 && a[0] == 1)
        },
        Err(_) => true,
    }
}

fn layout_of(a: &Vec<usize>, b: &Vec<usize>, batched: bool) -> (r: Result<ProductLayout, ArrayError>)
    requires
        dims_fit(a@),
        product_supported(a@, b@, batched),
    ensures
        match product_plan(a@, b@, batched) {
            Err(e) => r == Err::<ProductLayout, ArrayError>(e),
            Ok((kind, batch, m, n, p, shape)) => r matches Ok(l) && {
                &&& l.kind == kind
                &&& l.batch == batch
                &&& l.m == m
                &&& l.n == n
                &&& l.p == p
                &&& l.shape@ == shape
            },
        },
{
    let ra = a.len();
    let rb = b.len();
    if ra == 1 && rb == 1 {
        if a[0] != b[0] {
            return Err(ArrayError::ShapeMismatch);
        }
        let shape: Vec<usize> = Vec::new();
        proof { assert(shape@ =~= Seq::<usize>::empty()); }
        Ok(ProductLayout { kind: ProductKind::Inner, batch: 1, m: 1, n: a[0], p: 1, shape })
    } else if ra == 2 && rb == 1 {
        if a[1] != b[0] {
            return Err(ArrayError::ShapeMismatch);
        }
        let shape = vec![a[0]];
        proof { assert(shape@ =~= seq![a@[0]]); }
        Ok(ProductLayout { kind: ProductKind::MatVec, batch: 1, m: a[0], n: a[1], p: 1, shape })
    } else if ra == 1 && rb == 2 {
        if a[0] != b[0] {
            return Err(ArrayError::ShapeMismatch);
        }
        let shape = vec![b[1]];
        proof { assert(shape@ =~= seq![b@[1]]); }
        Ok(ProductLayout { kind: ProductKind::VecMat, batch: 1, m: 1, n: a[0], p: b[1], shape })
    } else if ra == 2 && rb == 2 {
        if a[1] != b[0] {
            return Err(ArrayError::ShapeMismatch);
        }
        let shape = vec![a[0], b[1]];
        proof { assert(shape@ =~= seq![a@[0], b@[1]]); }
        Ok(ProductLayout { kind: ProductKind::MatMat, batch: 1, m: a[0], n: a[1], p: b[1], shape })
    } else if batched && ra >= 3 && rb == 2 {
        if a[ra - 1] != b[0] {
            return Err(ArrayError::ShapeMismatch);
        }
        let batch = sub_prod(a, 0, ra - 2);
        let mut shape: Vec<usize> = Vec::new();
        let mut i: usize = 0;
        while i < ra - 2
            invariant
                0 <= i <= ra - 2,
                ra == a@.len(),
                shape@ == a@.subrange(0, i as int),
            decreases ra - 2 - i,
        {
            shape.push(a[i]);
            i = i + 1;
            proof { assert(shape@ =~= a@.subrange(0, i as int)); }
        }
        shape.push(a[ra - 2]);
        shape.push(b[1]);
        proof { assert(shape@ =~= a@.subrange(0, ra - 2) + seq![a@[ra - 2], b@[1]]); }
        Ok(ProductLayout { kind: ProductKind::Batched, batch, m: a[ra - 2], n: a[ra - 1], p: b[1], shape })
    } else {
        Err(ArrayError::InvalidArgument)
    }
}

/// The layout of `matmul` for operands of shapes `a` and `b`: vector and matrix operands in
/// any combination, or a stack of matrices times a matrix. Element `(b, i, j)` of the result,
/// at `out_offset`, is the sum over `k < n` of the left element at `lhs_offset` times the
/// right element at `rhs_offset`.
pub fn matmul_layout(a: &Vec<usize>, b: &Vec<usize>) -> (r: Result<ProductLayout, ArrayError>)
    requires
        dims_fit(a@),
        product_supported(a@, b@, true),
    ensures
        match product_plan(a@, b@, true) {
            Err(e) => r == Err::<ProductLayout, ArrayError>(e),
            Ok((kind, batch, m, n, p, shape)) => r matches Ok(l) && {
                &&& l.kind == kind
                &&& l.batch == batch
                &&& l.m == m
                &&& l.n == n
                &&& l.p == p
                &&& l.shape@ == shape
            },
        },
{
    layout_of(a, b, true)
}

/// The layout of `dot`: as `matmul_layout`, without stacks of matrices.
pub fn dot_layout(a: &Vec<usize>, b: &Vec<usize>) -> (r: Result<ProductLayout, ArrayError>)
    requires
        dims_fit(a@),
        product_supported(a@, b@, false),
    ensures
        match product_plan(a@, b@, false) {
            Err(e) => r == Err::<ProductLayout, ArrayError>(e),
            Ok((kind, batch, m, n, p, shape)) => r matches Ok(l) && {
                &&& l.kind == kind
                &&& l.batch == batch
                &&& l.m == m
                &&& l.n == n
                &&& l.p == p
                &&& l.shape@ == shape
            },
        },
{
    layout_of(a, b, false)
}

/// The result of a product holds `batch * m * p` elements: its shape has that product.
pub proof fn law_product_shape_size(a: Seq<usize>, b: Seq<usize>, batched: bool)
    ensures
        product_plan(a, b, batched) matches Ok((kind, batch, m, n, p, shape)) ==> prod(shape) == batch * m * p,
{
    if let Ok((kind, batch, m, n, p, shape)) = product_plan(a, b, batched) {
        if a.len() == 1 && b.len() == 1 {
            assert(prod(shape) == 1) by { reveal_with_fuel(prod, 1); }
            assert(prod(shape) == batch * m * p);
        } else if a.len() == 2 && b.len() == 1 {
            crate::shape::lemma_prod_single(shape);
            assert(prod(shape) == batch * m * p);
        } else if a.len() == 1 && b.len() == 2 {
            crate::shape::lemma_prod_single(shape);
            assert(prod(shape) == batch * m * p);
        } else if a.len() == 2 && b.len() == 2 {
            assert(shape.drop_last() =~= seq![a[0]]);
            crate::shape::lemma_prod_single(shape.drop_last());
            assert(prod(shape) == prod(shape.drop_last()) * (shape.last() as nat));
            assert(batch == 1);
            assert(prod(shape) == batch * m * p) by (nonlinear_arith)
                requires
                    prod(shape) == prod(shape.drop_last()) * (shape.last() as nat),
                    prod(shape.drop_last()) == m,
                    shape.last() as nat == p,
                    batch == 1;
        } else {
            let r = a.len() as int;
            let pre = a.subrange(0, r - 2);
            let q = pre.push(a[r - 2]);
            assert(shape.drop_last() =~= q);
            assert(q.drop_last() =~= pre);
            assert(prod(shape) == prod(q) * (b[1] as nat));
            assert(prod(q) == prod(pre) * (a[r - 2] as nat));
            assert(prod(shape) == prod(pre) * m * p) by (nonlinear_arith)
                requires
                    prod(shape) == prod(q) * (b[1] as nat),
                    prod(q) == prod(pre) * (a[r - 2] as nat),
                    m == a[r - 2] as int,
                    p == b[1] as int;
        }
    }
}

} // verus!

use vstd::prelude::*;
use crate::array::ArrayError;

verus! {

/// Which kinds of scalar occur among the elements read from nested sequences.
#[derive(Clone, Copy, Debug, PartialEq, Eq, Structural)]
pub struct TypeFlags {
    pub has_float: bool,
    pub has_int: bool,
    pub has_bool: bool,
}

impl TypeFlags {
    /// No kind seen yet.
    pub fn empty() -> (r: TypeFlags)
        ensures
            !r.has_float && !r.has_int && !r.has_bool,
    {
        TypeFlags { has_float: false, has_int: false, has_bool: false }
    }

    /// Adds the kinds seen elsewhere.
    pub fn merge(&mut self, o: TypeFlags)
        ensures
            final(self).has_float == (old(self).has_float || o.has_float),
            final(self).has_int == (old(self).has_int || o.has_int),
            final(self).has_bool == (old(self).has_bool || o.has_bool),
    {
        self.has_float = self.has_float || o.has_float;
        self.has_int = self.has_int || o.has_int;
        self.has_bool = self.has_bool || o.has_bool;
    }

    /// Element type code of the array: 0 (float) once a float occurs, 2 (bool) when only
    /// booleans occur, 1 (integer) otherwise.
    pub fn dtype_code(&self) -> (r: u8)
        ensures
            r == (if self.has_float { 0u8 } else if self.has_bool && !self.has_int { 2u8 } else { 1u8 }),
    {
        if self.has_float {
            0
        } else if self.has_bool && !self.has_int {
            2
        } else {
            1
        }
    }
}

/// Every child shape is the first.
pub open spec fn children_agree(children: Seq<Vec<usize>>) -> bool {
    forall|k: int| 0 <= k < children.len() ==> (#[trigger] children[k])@ == children[0]@
}

/// Shape of a sequence of `n` sub-sequences whose shapes agree: `n` followed by the first
/// child's shape when that starts with a nonzero dimension, `n` and zero when the first child is
/// an empty sequence, and `n` alone otherwise.
pub open spec fn nested_shape(n: usize, first: Seq<usize>) -> Seq<usize> {
    if first.len() > 0 && first[0] != 0 {
        seq![n] + first
    } else if first.len() == 1 && first[0] == 0 {
        seq![n, 0usize]
    } else {
        seq![n]
    }
}

/// Shape of a sequence of `n >= 1` sub-sequences from their shapes; sub-sequences of differing
/// shapes are refused.
pub fn merge_child_shapes(n: usize, children: &Vec<Vec<usize>>) -> (r: Result<Vec<usize>, ArrayError>)
    requires
        children@.len() >= 1,
    ensures
        r is Err <==> !children_agree(children@),
        r is Err ==> r == Err::<Vec<usize>, ArrayError>(ArrayError::ShapeMismatch),
        r matches Ok(s) ==> s@ == nested_shape(n, children@[0]@),
{
    let first = &children[0];
    let mut k: usize = 0;
    while k < children.len()
        invariant
            0 <= k <= children@.len(),
            first@ == children@[0]@,
            forall|k2: int| 0 <= k2 < k ==> (#[trigger] children@[k2])@ == children@[0]@,
        decreases children@.len() - k,
    {
        if !crate::joining::vec_eq_usize(&children[k], first) {
            return Err(ArrayError::ShapeMismatch);
        }
        k = k + 1;
    }
    let mut shape: Vec<usize> = Vec::new();
    shape.push(n);
    if first.len() > 0 && first[0] != 0 {
        let mut i: usize = 0;
        while i < first.len()
            invariant
                0 <= i <= first@.len(),
                shape@ =~= seq![n] + first@.take(i as int),
            decreases first@.len() - i,
        {
            shape.push(first[i]);
            i = i + 1;
        }
        assert(first@.take(first@.len() as int) =~= first@);
    } else if first.len() == 1 && first[0] == 0 {
        shape.push(0);
    }
    assert(shape@ =~= nested_shape(n, children@[0]@));
    Ok(shape)
}

/// A value read from nested sequences: a scalar of one of the numeric kinds, an object of
/// another kind, or a sequence of values.
pub enum Nested {
    Bool,
    Int,
    Float,
    Other,
    List(Vec<Nested>),
}

/// The kinds seen in either of two sets of kinds.
pub open spec fn merged(a: TypeFlags, b: TypeFlags) -> TypeFlags {
    TypeFlags { has_float: a.has_float || b.has_float, has_int: a.has_int || b.has_int, has_bool: a.has_bool || b.has_bool }
}

/// No kind at all.
pub open spec fn no_kinds() -> TypeFlags {
    TypeFlags { has_float: false, has_int: false, has_bool: false }
}

/// All shapes equal the first.
pub open spec fn shapes_agree(shapes: Seq<Seq<usize>>) -> bool {
    forall|k: int| 0 <= k < shapes.len() ==> #[trigger] shapes[k] == shapes[0]
}

/// The shape and the kinds of the scalars of a nested value: a scalar has the empty shape and
/// its kind; an empty sequence has shape `[0]`; a sequence of values of one shape has the
/// `nested_shape` of its length and that shape, and the kinds of all its values. An object of
/// another kind is refused, and so are sequences whose values differ in shape; the error that
/// comes first in reading order is the one reported.
pub open spec fn categorized(v: Nested) -> Result<(Seq<usize>, TypeFlags), ArrayError>
    decreases v, 0int,
{
    match v {
        Nested::Bool => Ok((Seq::empty(), TypeFlags { has_float: false, has_int: false, has_bool: true })),
        Nested::Int => Ok((Seq::empty(), TypeFlags { has_float: false, has_int: true, has_bool: false })),
        Nested::Float => Ok((Seq::empty(), TypeFlags { has_float: true, has_int: false, has_bool: false })),
        Nested::Other => Err(ArrayError::InvalidArgument),
        Nested::List(items) => {
            if items@.len() == 0 {
                Ok((seq![0usize], no_kinds()))
            } else {
                match categorized_prefix(items@, items@.len() as int) {
                    Err(e) => Err(e),
                    Ok((shapes, fl)) => {
                        if shapes_agree(shapes) {
                            Ok((nested_shape(items@.len() as usize, shapes[0]), fl))
                        } else {
                            Err(ArrayError::ShapeMismatch)
                        }
                    },
                }
            }
        },
    }
}

/// The shapes and the kinds of the first `k` values, or the first error among them.
pub open spec fn categorized_prefix(items: Seq<Nested>, k: int) -> Result<(Seq<Seq<usize>>, TypeFlags), ArrayError>
    decreases items, k,
{
    if k <= 0 || k > items.len() {
        Ok((Seq::empty(), no_kinds()))
    } else {
        match categorized_prefix(items, k - 1) {
            Err(e) => Err(e),
            Ok((shapes, fl)) => match categorized(items[k - 1]) {
                Err(e) => Err(e),
                Ok((s, f)) => Ok((shapes.push(s), merged(fl, f))),
            },
        }
    }
}

proof fn lemma_prefix_stays_err(items: Seq<Nested>, k: int, k2: int)
    requires
        0 <= k <= k2 <= items.len(),
        categorized_prefix(items, k) is Err,
    ensures
        categorized_prefix(items, k2) == categorized_prefix(items, k),
    decreases k2 - k,
{
    if k2 > k {
        lemma_prefix_stays_err(items, k, k2 - 1);
    }
}

/// The shape and the kinds of the scalars of a nested value, as `categorized` states.
pub fn categorize(v: &Nested) -> (r: Result<(Vec<usize>, TypeFlags), ArrayError>)
    ensures
        match categorized(*v) {
            Ok((s, f)) => r matches Ok((s2, f2)) && s2@ == s && f2 == f,
            Err(e) => r == Err::<(Vec<usize>, TypeFlags), ArrayError>(e),
        },
    decreases v,
{
    match v {
        Nested::Bool => Ok((Vec::new(), TypeFlags { has_float: false, has_int: false, has_bool: true })),
        Nested::Int => Ok((Vec::new(), TypeFlags { has_float: false, has_int: true, has_bool: false })),
        Nested::Float => Ok((Vec::new(), TypeFlags { has_float: true, has_int: false, has_bool: false })),
        Nested::Other => Err(ArrayError::InvalidArgument),
        Nested::List(items) => {
            let n = items.len();
            if n == 0 {
                let shape = vec![0usize];
                proof {
                    assert(shape@ =~= seq![0usize]);
                }
                return Ok((shape, TypeFlags::empty()));
            }
            let mut children: Vec<Vec<usize>> = Vec::new();
            let mut flags = TypeFlags::empty();
            let mut k: usize = 0;
            while k < n
                invariant
                    0 <= k <= n,
                    n == items@.len(),
                    *v == Nested::List(*items),
                    children@.len() == k,
                    categorized_prefix(items@, k as int) matches Ok((shapes, fl)) && shapes.len() == k
                        && (forall|k2: int| 0 <= k2 < k ==> #[trigger] children@[k2]@ == shapes[k2]) && flags == fl,
                decreases n - k,
            {
                proof {
                    assert(decreases_to!(*v => *items));
                    assert(decreases_to!(*items => items@));
                    assert(decreases_to!(items@ => items@[k as int]));
                }
                let c = categorize(&items[k]);
                match c {
                    Err(e) => {
                        proof {
                            lemma_prefix_stays_err(items@, k + 1, n as int);
                        }
                        return Err(e);
                    },
                    Ok((s, f)) => {
                        children.push(s);
                        flags.merge(f);
                    },
                }
                k = k + 1;
            }
            let ghost shapes = categorized_prefix(items@, n as int)->Ok_0.0;
            proof {
                assert(children_agree(children@) == shapes_agree(shapes)) by {
                    if children_agree(children@) {
                        assert forall|k2: int| 0 <= k2 < shapes.len() implies #[trigger] shapes[k2] == shapes[0] by {
                            assert(children@[k2]@ == children@[0]@);
                        }
                    }
                    if shapes_agree(shapes) {
                        assert forall|k2: int| 0 <= k2 < children@.len() implies (#[trigger] children@[k2])@ == children@[0]@ by {
                            assert(shapes[k2] == shapes[0]);
                        }
                    }
                }
            }
            match merge_child_shapes(n, &children) {
                Ok(shape) => Ok((shape, flags)),
                Err(e) => Err(e),
            }
        },
    }
}

} // verus!

use vstd::prelude::*;
use crate::array::{axis_layout, axis_ok, norm_axis, normalize_axis, ArrayError, NdArray};
use crate::index_math::lemma_unflat3;
use crate::layout::copy_vec;
use crate::shape::{dims_fit, post_of, pre_of, prod};

verus! {

/// `out` is the running combination of `src` along an axis of length `n` whose elements lie
/// `post` positions apart: element `j` is `op` of the element before it along the axis (or
/// `init` at the start of the axis) and `src[j]`.
pub open spec fn scans_along<T, F: Fn(T, T) -> T>(src: Seq<T>, out: Seq<T>, n: int, post: int, init: T, op: F) -> bool {
    &&& out.len() == src.len()
    &&& forall|j: int| 0 <= j < src.len() ==>
        op.ensures((if (j / post) % n == 0 { init } else { out[j - post] }, src[j]), #[trigger] out[j])
}

fn scan<T: Copy, F: Fn(T, T) -> T>(src: &Vec<T>, pre: usize, n: usize, post: usize, init: T, op: &F) -> (r: Vec<T>)
    requires
        src@.len() == pre * n * post,
        forall|x: T, y: T| op.requires((x, y)),
    ensures
        scans_along(src@, r@, n as int, post as int, init, *op),
{
    let total = src.len();
    let mut out: Vec<T> = Vec::new();
    let mut j: usize = 0;
    while j < total
        invariant
            0 <= j <= total,
            total == src@.len(),
            total == pre * n * post,
            forall|x: T, y: T| op.requires((x, y)),
            out@.len() == j,
            forall|j2: int| 0 <= j2 < j ==>
                op.ensures((if (j2 / post as int) % (n as int) == 0 { init } else { out@[j2 - post] }, src@[j2]), #[trigger] out@[j2]),
        decreases total - j,
    {
        proof {
            lemma_unflat3(j as int, pre as int, n as int, post as int);
        }
        let k = (j / post) % n;
        let prev = if k == 0 {
            init
        } else {
            proof {
                let q = j as int / post as int;
                assert(q >= 1) by {
                    if q == 0 {
                        assert(0int % (n as int) == 0);
                    }
                }
                assert(j as int >= post as int) by (nonlinear_arith)
                    requires q >= 1, post > 0, q == j as int / post as int, j >= 0;
            }
            out[j - post]
        };
        let v = op(prev, src[j]);
        let ghost old_out = out@;
        out.push(v);
        proof {
            assert forall|j2: int| 0 <= j2 < j + 1 implies
                op.ensures((if (j2 / post as int) % (n as int) == 0 { init } else { out@[j2 - post] }, src@[j2]), #[trigger] out@[j2]) by {
                if j2 < j {
                    assert(out@[j2] == old_out[j2]);
                    if (j2 / post as int) % (n as int) != 0 {
                        let q = j2 / post as int;
                        assert(q >= 1) by {
                            if q == 0 {
                                assert(0int % (n as int) == 0);
                            }
                        }
                        assert(j2 >= post as int) by (nonlinear_arith)
                            requires q >= 1, post > 0, q == j2 / post as int, j2 >= 0;
                        assert(out@[j2 - post] == old_out[j2 - post]);
                    }
                }
            }
        }
        j = j + 1;
    }
    out
}

/// The running combination of the elements of `a` by `op`, starting from `init`: over all
/// elements in C order (the result is one-dimensional) when no axis is given, else along the
/// axis, restarting at each start of it. An axis out of bounds is refused.
pub fn cumulative<T: Copy, F: Fn(T, T) -> T>(a: &NdArray<T>, axis: Option<isize>, init: T, op: F)
    -> (r: Result<NdArray<T>, ArrayError>)
    requires
        a.wf(),
        dims_fit(a.shape@),
        forall|x: T, y: T| op.requires((x, y)),
    ensures
        axis is None ==> (r matches Ok(out) && out.shape@ == seq![a.data@.len() as usize]
            && scans_along(a.data@, out.data@, a.data@.len() as int, 1, init, op)),
        axis matches Some(x) ==> (r is Err <==> !axis_ok(x as int, a.shape@.len() as int)),
        r is Err ==> r == Err::<NdArray<T>, ArrayError>(ArrayError::AxisOutOfBounds),
        axis is Some && r is Ok ==> (r matches Ok(out) && {
            let ax = norm_axis(axis->0 as int, a.shape@.len() as int);
            &&& out.wf()
            &&& out.shape@ == a.shape@
            &&& scans_along(a.data@, out.data@, a.shape@[ax] as int, post_of(a.shape@, ax) as int, init, op)
        }),
{
    match axis {
        None => {
            let n = a.data.len();
            let data = scan(&a.data, 1, n, 1, init, &op);
            let mut shape: Vec<usize> = Vec::new();
            shape.push(n);
            proof {
                assert(shape@ =~= seq![a.data@.len() as usize]);
            }
            Ok(NdArray { data, shape })
        },
        Some(x) => {
            let ax = match normalize_axis(x, a.shape.len()) {
                None => {
                    return Err(ArrayError::AxisOutOfBounds);
                },
                Some(v) => v,
            };
            let (pre, n, post) = axis_layout(&a.shape, ax);
            let data = scan(&a.data, pre, n, post, init, &op);
            Ok(NdArray { data, shape: copy_vec(&a.shape) })
        },
    }
}

} // verus!
